//! Presentation-ready election results, assembled from engine output.
//!
//! Scores stay exact rationals here; serialization layers may project
//! them to floating point outside the library.

use vstd::prelude::*;
use vstd::string::StringExecFns;
use crate::account::AccountId;
use crate::engine::{
    count_elected, find_round, round_filled, Candidate,
};
use crate::render::{append_hex, hex_of_bytes};
use crate::trace::PhragmenTrace;
use crate::types::{OnchainElectionsData, PhragmenOutputs};
use crate::rational::Rational128;

verus! {

/// Account data with an optional display name.
#[derive(Clone, Debug, PartialEq)]
pub struct ApiAccount {
    /// The account address, in lowercase hex.
    pub address: String,
    /// Optional identity display name.
    pub display_name: Option<String>,
}

/// Council seat configuration.
#[derive(Clone, Copy, Debug, PartialEq, Eq, Structural)]
pub struct ApiCouncilSeats {
    pub members: u32,
    pub runners_up: u32,
}

/// Role in the election outcome.
#[derive(Clone, Copy, Debug, PartialEq, Eq, Structural)]
pub enum ApiCandidateRole {
    Member,
    RunnerUp,
    NotElected,
}

/// Final result for one candidate.
#[derive(Clone, Debug, PartialEq)]
pub struct ApiCandidateResult {
    pub id: ApiAccount,
    pub role: ApiCandidateRole,
    /// Final Phragmén score, exact.
    pub final_score: Rational128,
    /// Approval stake at the start of the run.
    pub initial_stake: u128,
    /// Backed stake after stake back-assignment.
    pub final_stake: u128,
}

/// Basic candidate information.
#[derive(Clone, Debug, PartialEq)]
pub struct ApiCandidate {
    pub id: ApiAccount,
    pub initial_stake: u128,
}

/// Voter information.
#[derive(Clone, Debug, PartialEq)]
pub struct ApiVoter {
    pub id: ApiAccount,
    pub stake: u128,
    pub votes: Vec<ApiAccount>,
}

/// Candidate score inside one round.
#[derive(Clone, Debug, PartialEq)]
pub struct ApiCandidateScore {
    pub id: ApiAccount,
    /// Score at the round boundary, exact.
    pub score: Rational128,
    pub role: ApiCandidateRole,
}

/// Vote distribution inside one round.
#[derive(Clone, Debug, PartialEq)]
pub struct ApiVoteDistribution {
    pub candidate: ApiAccount,
    pub stake_applied: u128,
    pub voter_count: usize,
}

/// One election round for presentation.
#[derive(Clone, Debug, PartialEq)]
pub struct ApiRound {
    pub round_number: usize,
    pub scores: Vec<ApiCandidateScore>,
    pub vote_distribution: Vec<ApiVoteDistribution>,
}

/// Complete election data.
#[derive(Clone, Debug, PartialEq)]
pub struct ApiElectionData {
    pub council_seats: ApiCouncilSeats,
    pub final_results: Vec<ApiCandidateResult>,
    pub candidates: Vec<ApiCandidate>,
    pub voters: Vec<ApiVoter>,
    pub rounds: Vec<ApiRound>,
}

/// API response for election results.
#[derive(Clone, Debug, PartialEq)]
pub struct ApiElectionResults {
    /// Block hash the data was taken from, in lowercase hex.
    pub block_hash: String,
    /// Complete election data.
    pub election_data: ApiElectionData,
}

/// Renders an account for the API, without a display name.
pub fn api_account(a: &AccountId) -> (r: ApiAccount)
    ensures
        r.address@ == hex_of_bytes(a@),
        r.display_name is None,
{
    let mut address = String::new();
    append_hex(&mut address, &a.0);
    ApiAccount { address, display_name: None }
}

/// The role of the candidate elected at rank `k` (0-based, by round
/// order): one of the first `desired_members` seats, or a runner-up.
pub open spec fn rank_role(k: int, desired_members: u32) -> ApiCandidateRole {
    if k < desired_members {
        ApiCandidateRole::Member
    } else {
        ApiCandidateRole::RunnerUp
    }
}

/// The not-yet-elected candidates, in arena order.
pub open spec fn unelected(cands: Seq<Candidate>) -> Seq<Candidate>
    decreases cands.len(),
{
    if cands.len() == 0 {
        Seq::empty()
    } else {
        let rest = unelected(cands.drop_last());
        if cands.last().elected {
            rest
        } else {
            rest.push(cands.last())
        }
    }
}

/// One final-result entry faithfully renders one candidate record.
pub open spec fn result_entry_ok(
    entry: ApiCandidateResult,
    c: Candidate,
    role: ApiCandidateRole,
) -> bool {
    &&& entry.id.address@ == hex_of_bytes(c.who@)
    &&& entry.role == role
    &&& entry.final_score == c.score
    &&& entry.initial_stake == c.approval_stake
    &&& entry.final_stake == c.backed_stake
}

/// The first `done` final-result entries render the candidates
/// elected in rounds `1..=done`, in round order, with their rank role.
pub open spec fn results_prefix_ok(
    out: Seq<ApiCandidateResult>,
    cands: Seq<Candidate>,
    done: int,
    dm: u32,
) -> bool {
    forall|k: int| 0 <= k < done ==> result_entry_ok(
        #[trigger] out[k],
        cands[find_round(cands, k + 1)],
        rank_role(k, dm),
    ) && 0 <= find_round(cands, k + 1) < cands.len()
}

/// The role a snapshot candidate displays: elected within the member
/// seats, elected beyond them, or not elected.
pub open spec fn snapshot_role(c: Candidate, desired_members: u32) -> ApiCandidateRole {
    if c.elected {
        if c.round <= desired_members {
            ApiCandidateRole::Member
        } else {
            ApiCandidateRole::RunnerUp
        }
    } else {
        ApiCandidateRole::NotElected
    }
}

/// The `RoundStart` events of a trace, in emission order.
pub open spec fn round_start_events(traces: Seq<PhragmenTrace>) -> Seq<PhragmenTrace>
    decreases traces.len(),
{
    if traces.len() == 0 {
        Seq::empty()
    } else {
        let rest = round_start_events(traces.drop_last());
        if traces.last() is RoundStart {
            rest.push(traces.last())
        } else {
            rest
        }
    }
}

/// The rounds list renders the trace's `RoundStart` events one for
/// one, in emission order.
pub open spec fn rounds_ok(
    rounds: Seq<ApiRound>,
    traces: Seq<PhragmenTrace>,
    desired_members: u32,
) -> bool {
    &&& rounds.len() == round_start_events(traces).len()
    &&& forall|j: int| 0 <= j < rounds.len() ==> round_entry_matches(
        #[trigger] rounds[j],
        round_start_events(traces)[j],
        desired_members,
    )
}

/// Counts the elected candidates.
fn count_elected_exec(cands: &Vec<Candidate>) -> (r: usize)
    ensures
        r == count_elected(cands@),
{
    let mut count: usize = 0;
    let mut i: usize = 0;
    while i < cands.len()
        invariant
            i <= cands@.len(),
            count == count_elected(cands@.take(i as int)),
            count <= i,
        decreases cands@.len() - i,
    {
        proof {
            assert(cands@.take(i + 1).drop_last() =~= cands@.take(i as int));
            assert(cands@.take(i + 1).last() == cands@[i as int]);
        }
        if cands[i].elected {
            count = count + 1;
        }
        i = i + 1;
    }
    proof {
        assert(cands@.take(cands@.len() as int) =~= cands@);
    }
    count
}

/// Classifies every candidate: the elected ones in round order, the
/// first `desired_members` of them as members and the rest as
/// runners-up, then the not-elected ones in arena order.
pub fn build_final_results(cands: &Vec<Candidate>, desired_members: u32) -> (r: Vec<
    ApiCandidateResult,
>)
    requires
        forall|rr: int| 1 <= rr <= count_elected(cands@) ==> round_filled(cands@, rr),
        forall|i: int| 0 <= i < cands@.len() ==> ((#[trigger] cands@[i]).elected <==> 1
            <= cands@[i].round <= count_elected(cands@)),
    ensures
        r@.len() == cands@.len(),
        results_prefix_ok(r@, cands@, count_elected(cands@), desired_members),
        forall|j: int| 0 <= j < unelected(cands@).len() ==> result_entry_ok(
            #[trigger] r@[count_elected(cands@) + j],
            unelected(cands@)[j],
            ApiCandidateRole::NotElected,
        ),
        unelected(cands@).len() + count_elected(cands@) == cands@.len(),
{
    let ec = count_elected_exec(cands);
    let mut out: Vec<ApiCandidateResult> = Vec::new();
    // the elected candidates, in round order
    let mut done: usize = 0;
    while done < ec
        invariant
            done <= ec,
            ec == count_elected(cands@),
            out@.len() == done,
            forall|rr: int| 1 <= rr <= ec ==> round_filled(cands@, rr),
            results_prefix_ok(out@, cands@, done as int, desired_members),
        decreases ec - done,
    {
        let rr = done + 1;
        let mut idx: Option<usize> = None;
        let mut i: usize = 0;
        while i < cands.len()
            invariant
                i <= cands@.len(),
                rr == done + 1,
                match idx {
                    None => forall|j: int| 0 <= j < i
                        ==> !((#[trigger] cands@[j]).elected && cands@[j].round == rr),
                    Some(x) => x < cands@.len() && find_round(cands@, rr as int) == x,
                },
            decreases cands@.len() - i,
        {
            let c = &cands[i];
            if idx.is_none() && c.elected && c.round == rr {
                proof {
                    crate::engine::lemma_find_round_char(cands@, rr as int);
                    assert(cands@[i as int].elected && cands@[i as int].round == rr);
                    assert(round_filled(cands@, rr as int));
                    let x = find_round(cands@, rr as int);
                    if x < i {
                        assert(cands@[x].elected && cands@[x].round == rr);
                        assert(false);
                    }
                    if x > i {
                        assert(!(cands@[i as int].elected && cands@[i as int].round == rr));
                        assert(false);
                    }
                }
                idx = Some(i);
            }
            i = i + 1;
        }
        let ghost old_out = out@;
        match idx {
            Some(x) => {
                let c = &cands[x];
                let role = if done < desired_members as usize {
                    ApiCandidateRole::Member
                } else {
                    ApiCandidateRole::RunnerUp
                };
                let idacc = api_account(&c.who);
                let entry = ApiCandidateResult {
                    id: idacc,
                    role,
                    final_score: c.score,
                    initial_stake: c.approval_stake,
                    final_stake: c.backed_stake,
                };
                proof {
                    assert(result_entry_ok(entry, cands@[x as int], rank_role(
                        done as int,
                        desired_members,
                    )));
                }
                out.push(entry);
                proof {
                    assert forall|k: int| 0 <= k < done + 1 implies result_entry_ok(
                        #[trigger] out@[k],
                        cands@[find_round(cands@, k + 1)],
                        rank_role(k, desired_members),
                    ) && 0 <= find_round(cands@, k + 1) < cands@.len() by {
                        if k < done {
                            assert(out@[k] == old_out[k]);
                            assert(result_entry_ok(old_out[k], cands@[find_round(
                                cands@,
                                k + 1,
                            )], rank_role(k, desired_members)));
                        } else {
                            assert(out@[k] == entry);
                            assert(find_round(cands@, k + 1) == x);
                        }
                    }
                    assert(results_prefix_ok(out@, cands@, done + 1, desired_members));
                }
            }
            None => {
                proof {
                    assert(round_filled(cands@, rr as int));
                    let j = choose|j: int|
                        0 <= j < cands@.len() && (#[trigger] cands@[j]).elected
                            && cands@[j].round == rr as int;
                    assert(false);
                }
            }
        }
        done = done + 1;
    }
    // the not-elected candidates, in arena order
    let ghost head = out@;
    let mut i: usize = 0;
    while i < cands.len()
        invariant
            i <= cands@.len(),
            ec == count_elected(cands@),
            head.len() == ec,
            out@.len() == ec + unelected(cands@.take(i as int)).len(),
            forall|k: int| 0 <= k < ec ==> out@[k] == head[k],
            forall|j: int| 0 <= j < unelected(cands@.take(i as int)).len()
                ==> result_entry_ok(
                #[trigger] out@[ec + j],
                unelected(cands@.take(i as int))[j],
                ApiCandidateRole::NotElected,
            ),
            count_elected(cands@.take(i as int)) + unelected(cands@.take(i as int)).len()
                == i,
            results_prefix_ok(out@, cands@, ec as int, desired_members),
        decreases cands@.len() - i,
    {
        proof {
            assert(cands@.take(i + 1).drop_last() =~= cands@.take(i as int));
            assert(cands@.take(i + 1).last() == cands@[i as int]);
        }
        let c = &cands[i];
        let ghost before_push = out@;
        if !c.elected {
            out.push(
                ApiCandidateResult {
                    id: api_account(&c.who),
                    role: ApiCandidateRole::NotElected,
                    final_score: c.score,
                    initial_stake: c.approval_stake,
                    final_stake: c.backed_stake,
                },
            );
            proof {
                assert forall|k: int| 0 <= k < ec implies result_entry_ok(
                    #[trigger] out@[k],
                    cands@[find_round(cands@, k + 1)],
                    rank_role(k, desired_members),
                ) && 0 <= find_round(cands@, k + 1) < cands@.len() by {
                    assert(out@[k] == before_push[k]);
                    assert(result_entry_ok(before_push[k], cands@[find_round(cands@, k + 1)],
                        rank_role(k, desired_members)));
                }
                assert(results_prefix_ok(out@, cands@, ec as int, desired_members));
            }
        }
        i = i + 1;
    }
    proof {
        assert(cands@.take(cands@.len() as int) =~= cands@);
    }
    out
}

/// Builds the complete election data from the snapshot and the engine
/// output.
/// Everything the assembled election data promises: the seat counts,
/// the fully classified final results, the candidate and voter lists
/// with their hex addresses and stakes, and one faithful rounds entry
/// per `RoundStart` event of the trace.
pub open spec fn election_data_built(
    r: ApiElectionData,
    onchain: OnchainElectionsData,
    phragmen: PhragmenOutputs,
) -> bool {
    &&& r.council_seats == (ApiCouncilSeats {
        members: onchain.desired_members,
        runners_up: onchain.desired_runners_up,
    })
    &&& r.final_results@.len() == phragmen.candidates@.len()
    &&& results_prefix_ok(
        r.final_results@,
        phragmen.candidates@,
        count_elected(phragmen.candidates@),
        onchain.desired_members,
    )
    &&& forall|j: int| 0 <= j < unelected(phragmen.candidates@).len() ==> result_entry_ok(
        #[trigger] r.final_results@[count_elected(phragmen.candidates@) + j],
        unelected(phragmen.candidates@)[j],
        ApiCandidateRole::NotElected,
    )
    &&& r.candidates@.len() == onchain.members@.len() + onchain.runners_up@.len()
        + onchain.candidates@.len()
    &&& forall|i: int| 0 <= i < onchain.members@.len() ==> {
        let entry = #[trigger] r.candidates@[i];
        entry.id.address@ == hex_of_bytes(onchain.members@[i].who@) && entry.initial_stake
            == onchain.members@[i].stake
    }
    &&& forall|i: int| 0 <= i < onchain.runners_up@.len() ==> {
        let entry = #[trigger] r.candidates@[onchain.members@.len() + i];
        entry.id.address@ == hex_of_bytes(onchain.runners_up@[i].who@) && entry.initial_stake
            == onchain.runners_up@[i].stake
    }
    &&& forall|i: int| 0 <= i < onchain.candidates@.len() ==> {
        let entry = #[trigger] r.candidates@[onchain.members@.len() + onchain.runners_up@.len()
            + i];
        entry.id.address@ == hex_of_bytes(onchain.candidates@[i].0@) && entry.initial_stake
            == onchain.candidates@[i].1
    }
    &&& r.voters@.len() == onchain.voting@.len()
    &&& forall|v: int| 0 <= v < onchain.voting@.len() ==> {
        let entry = #[trigger] r.voters@[v];
        &&& entry.id.address@ == hex_of_bytes(onchain.voting@[v].0@)
        &&& entry.stake == onchain.voting@[v].1.stake
        &&& entry.votes@.len() == onchain.voting@[v].1.votes@.len()
        &&& forall|k: int| 0 <= k < entry.votes@.len()
            ==> (#[trigger] entry.votes@[k]).address@ == hex_of_bytes(
            onchain.voting@[v].1.votes@[k]@,
        )
    }
    &&& rounds_ok(r.rounds@, phragmen.traces@, onchain.desired_members)
}

impl ApiElectionData {
    /// Assembles council seats, classified final results, the candidate
    /// and voter lists, and one entry per round of the trace.
    pub fn build_from(onchain: &OnchainElectionsData, phragmen: &PhragmenOutputs) -> (r:
        ApiElectionData)
        requires
            forall|rr: int| 1 <= rr <= count_elected(phragmen.candidates@)
                ==> round_filled(phragmen.candidates@, rr),
            forall|i: int| 0 <= i < phragmen.candidates@.len()
                ==> ((#[trigger] phragmen.candidates@[i]).elected <==> 1
                    <= phragmen.candidates@[i].round <= count_elected(phragmen.candidates@)),
        ensures
            election_data_built(r, *onchain, *phragmen),
    {
        let council_seats = ApiCouncilSeats {
            members: onchain.desired_members,
            runners_up: onchain.desired_runners_up,
        };
        let final_results = build_final_results(&phragmen.candidates, onchain.desired_members);
        // candidates: members, runners-up, then fresh candidates
        let mut candidates: Vec<ApiCandidate> = Vec::new();
        let mut i: usize = 0;
        while i < onchain.members.len()
            invariant
                i <= onchain.members@.len(),
                candidates@.len() == i,
                forall|m: int| 0 <= m < i ==> {
                    let entry = #[trigger] candidates@[m];
                    entry.id.address@ == hex_of_bytes(onchain.members@[m].who@)
                        && entry.initial_stake == onchain.members@[m].stake
                },
            decreases onchain.members@.len() - i,
        {
            let s = &onchain.members[i];
            candidates.push(ApiCandidate { id: api_account(&s.who), initial_stake: s.stake });
            i = i + 1;
        }
        let mut j: usize = 0;
        while j < onchain.runners_up.len()
            invariant
                j <= onchain.runners_up@.len(),
                candidates@.len() == onchain.members@.len() + j,
                forall|m: int| 0 <= m < onchain.members@.len() ==> {
                    let entry = #[trigger] candidates@[m];
                    entry.id.address@ == hex_of_bytes(onchain.members@[m].who@)
                        && entry.initial_stake == onchain.members@[m].stake
                },
                forall|m: int| 0 <= m < j ==> {
                    let entry = #[trigger] candidates@[onchain.members@.len() + m];
                    entry.id.address@ == hex_of_bytes(onchain.runners_up@[m].who@)
                        && entry.initial_stake == onchain.runners_up@[m].stake
                },
            decreases onchain.runners_up@.len() - j,
        {
            let s = &onchain.runners_up[j];
            candidates.push(ApiCandidate { id: api_account(&s.who), initial_stake: s.stake });
            j = j + 1;
        }
        let mut k: usize = 0;
        while k < onchain.candidates.len()
            invariant
                k <= onchain.candidates@.len(),
                candidates@.len() == onchain.members@.len() + onchain.runners_up@.len() + k,
                forall|m: int| 0 <= m < onchain.members@.len() ==> {
                    let entry = #[trigger] candidates@[m];
                    entry.id.address@ == hex_of_bytes(onchain.members@[m].who@)
                        && entry.initial_stake == onchain.members@[m].stake
                },
                forall|m: int| 0 <= m < onchain.runners_up@.len() ==> {
                    let entry = #[trigger] candidates@[onchain.members@.len() + m];
                    entry.id.address@ == hex_of_bytes(onchain.runners_up@[m].who@)
                        && entry.initial_stake == onchain.runners_up@[m].stake
                },
                forall|m: int| 0 <= m < k ==> {
                    let entry = #[trigger] candidates@[onchain.members@.len()
                        + onchain.runners_up@.len() + m];
                    entry.id.address@ == hex_of_bytes(onchain.candidates@[m].0@)
                        && entry.initial_stake == onchain.candidates@[m].1
                },
            decreases onchain.candidates@.len() - k,
        {
            let c = &onchain.candidates[k];
            candidates.push(ApiCandidate { id: api_account(&c.0), initial_stake: c.1 });
            k = k + 1;
        }
        // voters
        let mut voters: Vec<ApiVoter> = Vec::new();
        let mut v: usize = 0;
        while v < onchain.voting.len()
            invariant
                v <= onchain.voting@.len(),
                voters@.len() == v,
                forall|m: int| 0 <= m < v ==> {
                    let entry = #[trigger] voters@[m];
                    &&& entry.id.address@ == hex_of_bytes(onchain.voting@[m].0@)
                    &&& entry.stake == onchain.voting@[m].1.stake
                    &&& entry.votes@.len() == onchain.voting@[m].1.votes@.len()
                    &&& forall|k2: int| 0 <= k2 < entry.votes@.len()
                        ==> (#[trigger] entry.votes@[k2]).address@ == hex_of_bytes(
                        onchain.voting@[m].1.votes@[k2]@,
                    )
                },
            decreases onchain.voting@.len() - v,
        {
            let rec = &onchain.voting[v];
            let mut votes: Vec<ApiAccount> = Vec::new();
            let mut w: usize = 0;
            while w < rec.1.votes.len()
                invariant
                    w <= rec.1.votes@.len(),
                    votes@.len() == w,
                    forall|k2: int| 0 <= k2 < w ==> (#[trigger] votes@[k2]).address@
                        == hex_of_bytes(rec.1.votes@[k2]@),
                decreases rec.1.votes@.len() - w,
            {
                votes.push(api_account(&rec.1.votes[w]));
                w = w + 1;
            }
            voters.push(ApiVoter { id: api_account(&rec.0), stake: rec.1.stake, votes });
            v = v + 1;
        }
        // rounds: one entry per RoundStart event, in emission order
        let mut rounds: Vec<ApiRound> = Vec::new();
        let mut t: usize = 0;
        proof {
            assert(round_start_events(phragmen.traces@.take(0)) =~= Seq::<PhragmenTrace>::empty());
        }
        while t < phragmen.traces.len()
            invariant
                t <= phragmen.traces@.len(),
                rounds_ok(rounds@, phragmen.traces@.take(t as int), onchain.desired_members),
            decreases phragmen.traces@.len() - t,
        {
            proof {
                assert(phragmen.traces@.take(t + 1).drop_last() =~= phragmen.traces@.take(
                    t as int,
                ));
                assert(phragmen.traces@.take(t + 1).last() == phragmen.traces@[t as int]);
            }
            match &phragmen.traces[t] {
                PhragmenTrace::RoundStart(round_number, cs, _) => {
                    let mut scores: Vec<ApiCandidateScore> = Vec::new();
                    let mut m: usize = 0;
                    while m < cs.len()
                        invariant
                            m <= cs@.len(),
                            scores@.len() == m,
                            forall|q: int| 0 <= q < m ==> score_entry_matches(
                                #[trigger] scores@[q],
                                cs@[q],
                                onchain.desired_members,
                            ),
                        decreases cs@.len() - m,
                    {
                        let c = &cs[m];
                        let role = if c.elected {
                            if c.round <= onchain.desired_members as usize {
                                ApiCandidateRole::Member
                            } else {
                                ApiCandidateRole::RunnerUp
                            }
                        } else {
                            ApiCandidateRole::NotElected
                        };
                        scores.push(
                            ApiCandidateScore { id: api_account(&c.who), score: c.score, role },
                        );
                        m = m + 1;
                    }
                    let entry = ApiRound {
                        round_number: *round_number,
                        scores,
                        vote_distribution: Vec::new(),
                    };
                    let ghost old_rounds = rounds@;
                    proof {
                        assert(round_entry_matches(
                            entry,
                            phragmen.traces@[t as int],
                            onchain.desired_members,
                        ));
                    }
                    rounds.push(entry);
                    proof {
                        let pre = phragmen.traces@.take(t as int);
                        let now = phragmen.traces@.take(t + 1);
                        assert(round_start_events(now) == round_start_events(pre).push(
                            phragmen.traces@[t as int],
                        ));
                        assert forall|m: int| 0 <= m < rounds@.len()
                            implies round_entry_matches(
                            #[trigger] rounds@[m],
                            round_start_events(now)[m],
                            onchain.desired_members,
                        ) by {
                            if m < old_rounds.len() {
                                assert(rounds@[m] == old_rounds[m]);
                                assert(round_start_events(now)[m]
                                    == round_start_events(pre)[m]);
                                assert(round_entry_matches(
                                    old_rounds[m],
                                    round_start_events(pre)[m],
                                    onchain.desired_members,
                                ));
                            } else {
                                assert(rounds@[m] == entry);
                                assert(round_start_events(now)[m]
                                    == phragmen.traces@[t as int]);
                            }
                        }
                        assert(rounds_ok(rounds@, now, onchain.desired_members));
                    }
                }
                _ => {
                    proof {
                        let pre = phragmen.traces@.take(t as int);
                        let now = phragmen.traces@.take(t + 1);
                        assert(round_start_events(now) == round_start_events(pre));
                        assert(rounds_ok(rounds@, now, onchain.desired_members));
                    }
                }
            }
            t = t + 1;
        }
        let r = ApiElectionData { council_seats, final_results, candidates, voters, rounds };
        proof {
            assert(phragmen.traces@.take(phragmen.traces@.len() as int) =~= phragmen.traces@);
            assert(r.rounds@ == rounds@);
            assert(rounds_ok(r.rounds@, phragmen.traces@, onchain.desired_members));
            assert(election_data_built(r, *onchain, *phragmen));
        }
        r
    }
}

/// A score entry faithfully renders one snapshot candidate: address,
/// exact score and displayed role.
pub open spec fn score_entry_matches(
    entry: ApiCandidateScore,
    c: Candidate,
    desired_members: u32,
) -> bool {
    &&& entry.id.address@ == hex_of_bytes(c.who@)
    &&& entry.score == c.score
    &&& entry.role == snapshot_role(c, desired_members)
}

/// A rounds entry renders one `RoundStart` event: its round number and
/// one score per snapshot candidate.
pub open spec fn round_entry_matches(
    entry: ApiRound,
    t: PhragmenTrace,
    desired_members: u32,
) -> bool {
    match t {
        PhragmenTrace::RoundStart(r, cs, _) => {
            &&& entry.round_number == r
            &&& entry.scores@.len() == cs@.len()
            &&& forall|q: int| 0 <= q < cs@.len() ==> score_entry_matches(
                #[trigger] entry.scores@[q],
                cs@[q],
                desired_members,
            )
        },
        _ => false,
    }
}

/// The index of the first resolved pair for an address, or `-1`.
pub open spec fn find_name(resolved: Seq<(String, String)>, addr: Seq<char>) -> int
    decreases resolved.len(),
{
    if resolved.len() == 0 {
        -1
    } else if resolved[0].0@ == addr {
        0
    } else {
        let r = find_name(resolved.skip(1), addr);
        if r < 0 {
            -1
        } else {
            r + 1
        }
    }
}

/// Two optional display names with the same content.
pub open spec fn display_eqv(a: Option<String>, b: Option<String>) -> bool {
    match (a, b) {
        (Some(x), Some(y)) => x@ == y@,
        (None, None) => true,
        _ => false,
    }
}

/// An account after identity resolution: it gains the display name of
/// the first resolved pair matching its address, or keeps what it had.
pub open spec fn resolved_account(
    old_acc: ApiAccount,
    new_acc: ApiAccount,
    resolved: Seq<(String, String)>,
) -> bool {
    let k = find_name(resolved, old_acc.address@);
    &&& new_acc.address@ == old_acc.address@
    &&& if k >= 0 {
        new_acc.display_name matches Some(n) && n@ == resolved[k].1@
    } else {
        display_eqv(new_acc.display_name, old_acc.display_name)
    }
}

/// A content copy of an account.
fn clone_api_account(acc: &ApiAccount) -> (r: ApiAccount)
    ensures
        r.address@ == acc.address@,
        display_eqv(r.display_name, acc.display_name),
{
    let display_name = match &acc.display_name {
        Some(n) => Some(n.clone()),
        None => None,
    };
    ApiAccount { address: acc.address.clone(), display_name }
}

/// What `find_name` returns: `-1` exactly when no pair matches, else
/// the first matching index.
proof fn lemma_find_name_char(resolved: Seq<(String, String)>, addr: Seq<char>)
    ensures
        find_name(resolved, addr) == -1 <==> (forall|j: int|
            0 <= j < resolved.len() ==> (#[trigger] resolved[j]).0@ != addr),
        find_name(resolved, addr) >= 0 ==> {
            let r = find_name(resolved, addr);
            &&& r < resolved.len()
            &&& resolved[r].0@ == addr
            &&& forall|j: int| 0 <= j < r ==> (#[trigger] resolved[j]).0@ != addr
        },
    decreases resolved.len(),
{
    if resolved.len() > 0 && resolved[0].0@ != addr {
        lemma_find_name_char(resolved.skip(1), addr);
        let r1 = find_name(resolved.skip(1), addr);
        if r1 == -1 {
            assert forall|j: int| 0 <= j < resolved.len()
                implies (#[trigger] resolved[j]).0@ != addr by {
                if j > 0 {
                    assert(resolved.skip(1)[j - 1] == resolved[j]);
                }
            }
        } else {
            assert(resolved.skip(1)[r1] == resolved[r1 + 1]);
            assert forall|j: int| 0 <= j < r1 + 1
                implies (#[trigger] resolved[j]).0@ != addr by {
                if j > 0 {
                    assert(resolved.skip(1)[j - 1] == resolved[j]);
                }
            }
        }
    }
}

/// Looks an address up among the resolved display names.
fn lookup_name(resolved: &Vec<(String, String)>, address: &String) -> (r: Option<String>)
    ensures
        ({
            let k = find_name(resolved@, address@);
            if k >= 0 {
                r matches Some(n) && n@ == resolved@[k].1@
            } else {
                r is None
            }
        }),
{
    proof {
        lemma_find_name_char(resolved@, address@);
    }
    let mut i: usize = 0;
    while i < resolved.len()
        invariant
            i <= resolved@.len(),
            forall|j: int| 0 <= j < i ==> (#[trigger] resolved@[j]).0@ != address@,
            find_name(resolved@, address@) == -1 <==> (forall|j: int|
                0 <= j < resolved@.len() ==> (#[trigger] resolved@[j]).0@ != address@),
            find_name(resolved@, address@) >= 0 ==> {
                let r = find_name(resolved@, address@);
                &&& r < resolved@.len()
                &&& resolved@[r].0@ == address@
                &&& forall|j: int| 0 <= j < r ==> (#[trigger] resolved@[j]).0@ != address@
            },
        decreases resolved@.len() - i,
    {
        if resolved[i].0 == *address {
            proof {
                let r = find_name(resolved@, address@);
                assert(r >= 0);
                if r < i {
                    assert(resolved@[r].0@ == address@);
                    assert(false);
                }
                if r > i {
                    assert(resolved@[i as int].0@ != address@);
                    assert(false);
                }
            }
            return Some(resolved[i].1.clone());
        }
        i = i + 1;
    }
    None
}

/// Fills one account's display name from the resolved pairs.
fn resolve_account(acc: &mut ApiAccount, resolved: &Vec<(String, String)>)
    ensures
        resolved_account(*old(acc), *final(acc), resolved@),
{
    match lookup_name(resolved, &acc.address) {
        Some(name) => {
            acc.display_name = Some(name);
        }
        None => {}
    }
}

/// Two accounts with the same content.
pub open spec fn account_eqv(a: ApiAccount, b: ApiAccount) -> bool {
    a.address@ == b.address@ && display_eqv(a.display_name, b.display_name)
}

/// Fills display names across an assembled result: every account in
/// the final results, the candidate and voter lists and the rounds'
/// scores whose address has a resolved name gains it; everything else
/// is unchanged.  This is the pure half of identity resolution;
/// fetching the names is the data source's business.
pub fn apply_display_names(elections: &mut ApiElectionResults, resolved: &Vec<(String, String)>)
    ensures
        final(elections).block_hash@ == old(elections).block_hash@,
        final(elections).election_data.council_seats == old(
            elections,
        ).election_data.council_seats,
        final(elections).election_data.voters@.len() == old(
            elections,
        ).election_data.voters@.len(),
        forall|v: int| 0 <= v < old(elections).election_data.voters@.len() ==> {
            let before = #[trigger] old(elections).election_data.voters@[v];
            let after = final(elections).election_data.voters@[v];
            &&& resolved_account(before.id, after.id, resolved@)
            &&& after.stake == before.stake
            &&& after.votes@.len() == before.votes@.len()
            &&& forall|k: int| 0 <= k < before.votes@.len() ==> resolved_account(
                #[trigger] before.votes@[k],
                after.votes@[k],
                resolved@,
            )
        },
        final(elections).election_data.rounds@.len() == old(
            elections,
        ).election_data.rounds@.len(),
        forall|j: int| 0 <= j < old(elections).election_data.rounds@.len() ==> {
            let before = #[trigger] old(elections).election_data.rounds@[j];
            let after = final(elections).election_data.rounds@[j];
            &&& after.round_number == before.round_number
            &&& after.vote_distribution@.len() == before.vote_distribution@.len()
            &&& forall|d: int| 0 <= d < before.vote_distribution@.len() ==> {
                let db = #[trigger] before.vote_distribution@[d];
                let da = after.vote_distribution@[d];
                account_eqv(da.candidate, db.candidate) && da.stake_applied == db.stake_applied
                    && da.voter_count == db.voter_count
            }
            &&& after.scores@.len() == before.scores@.len()
            &&& forall|q: int| 0 <= q < before.scores@.len() ==> {
                let sb = #[trigger] before.scores@[q];
                let sa = after.scores@[q];
                resolved_account(sb.id, sa.id, resolved@) && sa.score == sb.score
                    && sa.role == sb.role
            }
        },
        final(elections).election_data.final_results@.len() == old(
            elections,
        ).election_data.final_results@.len(),
        forall|i: int| 0 <= i < old(elections).election_data.final_results@.len() ==> {
            let before = #[trigger] old(elections).election_data.final_results@[i];
            let after = final(elections).election_data.final_results@[i];
            &&& resolved_account(before.id, after.id, resolved@)
            &&& after.role == before.role
            &&& after.final_score == before.final_score
            &&& after.initial_stake == before.initial_stake
            &&& after.final_stake == before.final_stake
        },
        final(elections).election_data.candidates@.len() == old(
            elections,
        ).election_data.candidates@.len(),
        forall|i: int| 0 <= i < old(elections).election_data.candidates@.len() ==> {
            let before = #[trigger] old(elections).election_data.candidates@[i];
            let after = final(elections).election_data.candidates@[i];
            &&& resolved_account(before.id, after.id, resolved@)
            &&& after.initial_stake == before.initial_stake
        },
{
    let n = elections.election_data.final_results.len();
    let mut i: usize = 0;
    while i < n
        invariant
            i <= n,
            elections.election_data.final_results@.len() == n,
            old(elections).election_data.final_results@.len() == n,
            elections.block_hash@ == old(elections).block_hash@,
            elections.election_data.candidates@ == old(elections).election_data.candidates@,
            elections.election_data.voters@ == old(elections).election_data.voters@,
            elections.election_data.rounds@ == old(elections).election_data.rounds@,
            elections.election_data.council_seats == old(elections).election_data.council_seats,
            forall|j: int| 0 <= j < i ==> {
                let before = #[trigger] old(elections).election_data.final_results@[j];
                let after = elections.election_data.final_results@[j];
                &&& resolved_account(before.id, after.id, resolved@)
                &&& after.role == before.role
                &&& after.final_score == before.final_score
                &&& after.initial_stake == before.initial_stake
                &&& after.final_stake == before.final_stake
            },
            forall|j: int| i <= j < n ==> elections.election_data.final_results@[j]
                == #[trigger] old(elections).election_data.final_results@[j],
        decreases n - i,
    {
        let before = &elections.election_data.final_results[i];
        let mut id = clone_api_account(&before.id);
        let role = before.role;
        let final_score = before.final_score;
        let initial_stake = before.initial_stake;
        let final_stake = before.final_stake;
        resolve_account(&mut id, resolved);
        let entry = ApiCandidateResult { id, role, final_score, initial_stake, final_stake };
        elections.election_data.final_results.set(i, entry);
        i = i + 1;
    }
    let m = elections.election_data.candidates.len();
    let ghost mid = elections.election_data.final_results@;
    let mut k: usize = 0;
    while k < m
        invariant
            k <= m,
            elections.election_data.candidates@.len() == m,
            old(elections).election_data.candidates@.len() == m,
            elections.block_hash@ == old(elections).block_hash@,
            elections.election_data.voters@ == old(elections).election_data.voters@,
            elections.election_data.rounds@ == old(elections).election_data.rounds@,
            elections.election_data.council_seats == old(elections).election_data.council_seats,
            elections.election_data.final_results@ == mid,
            forall|j: int| 0 <= j < k ==> {
                let before = #[trigger] old(elections).election_data.candidates@[j];
                let after = elections.election_data.candidates@[j];
                &&& resolved_account(before.id, after.id, resolved@)
                &&& after.initial_stake == before.initial_stake
            },
            forall|j: int| k <= j < m ==> elections.election_data.candidates@[j]
                == #[trigger] old(elections).election_data.candidates@[j],
        decreases m - k,
    {
        let before = &elections.election_data.candidates[k];
        let mut id = clone_api_account(&before.id);
        let initial_stake = before.initial_stake;
        resolve_account(&mut id, resolved);
        elections.election_data.candidates.set(k, ApiCandidate { id, initial_stake });
        k = k + 1;
    }
    let ghost mid2 = elections.election_data.candidates@;
    let vcount = elections.election_data.voters.len();
    let mut v: usize = 0;
    while v < vcount
        invariant
            v <= vcount,
            elections.election_data.voters@.len() == vcount,
            old(elections).election_data.voters@.len() == vcount,
            elections.block_hash@ == old(elections).block_hash@,
            elections.election_data.rounds@ == old(elections).election_data.rounds@,
            elections.election_data.council_seats == old(elections).election_data.council_seats,
            elections.election_data.final_results@ == mid,
            elections.election_data.candidates@ == mid2,
            forall|j: int| 0 <= j < v ==> {
                let before = #[trigger] old(elections).election_data.voters@[j];
                let after = elections.election_data.voters@[j];
                &&& resolved_account(before.id, after.id, resolved@)
                &&& after.stake == before.stake
                &&& after.votes@.len() == before.votes@.len()
                &&& forall|k2: int| 0 <= k2 < before.votes@.len() ==> resolved_account(
                    #[trigger] before.votes@[k2],
                    after.votes@[k2],
                    resolved@,
                )
            },
            forall|j: int| v <= j < vcount ==> elections.election_data.voters@[j]
                == #[trigger] old(elections).election_data.voters@[j],
        decreases vcount - v,
    {
        let stake = elections.election_data.voters[v].stake;
        let mut id = clone_api_account(&elections.election_data.voters[v].id);
        resolve_account(&mut id, resolved);
        let nvotes = elections.election_data.voters[v].votes.len();
        let mut votes: Vec<ApiAccount> = Vec::new();
        let mut w: usize = 0;
        while w < nvotes
            invariant
                w <= nvotes,
                v < vcount,
                elections.election_data.voters@.len() == vcount,
                elections.election_data.voters@[v as int]
                    == old(elections).election_data.voters@[v as int],
                old(elections).election_data.voters@[v as int].votes@.len() == nvotes,
                votes@.len() == w,
                forall|k2: int| 0 <= k2 < w ==> resolved_account(
                    #[trigger] old(elections).election_data.voters@[v as int].votes@[k2],
                    votes@[k2],
                    resolved@,
                ),
            decreases nvotes - w,
        {
            let mut acc = clone_api_account(&elections.election_data.voters[v].votes[w]);
            resolve_account(&mut acc, resolved);
            votes.push(acc);
            w = w + 1;
        }
        elections.election_data.voters.set(v, ApiVoter { id, stake, votes });
        v = v + 1;
    }
    let ghost mid3 = elections.election_data.voters@;
    let rcount = elections.election_data.rounds.len();
    let mut rj: usize = 0;
    while rj < rcount
        invariant
            rj <= rcount,
            elections.election_data.rounds@.len() == rcount,
            old(elections).election_data.rounds@.len() == rcount,
            elections.block_hash@ == old(elections).block_hash@,
            elections.election_data.council_seats == old(elections).election_data.council_seats,
            elections.election_data.final_results@ == mid,
            elections.election_data.candidates@ == mid2,
            elections.election_data.voters@ == mid3,
            forall|j: int| 0 <= j < rj ==> {
                let before = #[trigger] old(elections).election_data.rounds@[j];
                let after = elections.election_data.rounds@[j];
                &&& after.round_number == before.round_number
                &&& after.vote_distribution@.len() == before.vote_distribution@.len()
                &&& forall|d: int| 0 <= d < before.vote_distribution@.len() ==> {
                    let db = #[trigger] before.vote_distribution@[d];
                    let da = after.vote_distribution@[d];
                    account_eqv(da.candidate, db.candidate) && da.stake_applied
                        == db.stake_applied && da.voter_count == db.voter_count
                }
                &&& after.scores@.len() == before.scores@.len()
                &&& forall|q: int| 0 <= q < before.scores@.len() ==> {
                    let sb = #[trigger] before.scores@[q];
                    let sa = after.scores@[q];
                    resolved_account(sb.id, sa.id, resolved@) && sa.score == sb.score
                        && sa.role == sb.role
                }
            },
            forall|j: int| rj <= j < rcount ==> elections.election_data.rounds@[j]
                == #[trigger] old(elections).election_data.rounds@[j],
        decreases rcount - rj,
    {
        let round_number = elections.election_data.rounds[rj].round_number;
        let scount = elections.election_data.rounds[rj].scores.len();
        let mut scores: Vec<ApiCandidateScore> = Vec::new();
        let mut q: usize = 0;
        while q < scount
            invariant
                q <= scount,
                rj < rcount,
                elections.election_data.rounds@.len() == rcount,
                elections.election_data.rounds@[rj as int]
                    == old(elections).election_data.rounds@[rj as int],
                old(elections).election_data.rounds@[rj as int].scores@.len() == scount,
                scores@.len() == q,
                forall|q2: int| 0 <= q2 < q ==> {
                    let sb = #[trigger] old(
                        elections,
                    ).election_data.rounds@[rj as int].scores@[q2];
                    let sa = scores@[q2];
                    resolved_account(sb.id, sa.id, resolved@) && sa.score == sb.score
                        && sa.role == sb.role
                },
            decreases scount - q,
        {
            let entry = &elections.election_data.rounds[rj].scores[q];
            let mut id = clone_api_account(&entry.id);
            let score = entry.score;
            let role = entry.role;
            resolve_account(&mut id, resolved);
            scores.push(ApiCandidateScore { id, score, role });
            q = q + 1;
        }
        let dcount = elections.election_data.rounds[rj].vote_distribution.len();
        let mut dist: Vec<ApiVoteDistribution> = Vec::new();
        let mut d: usize = 0;
        while d < dcount
            invariant
                d <= dcount,
                rj < rcount,
                elections.election_data.rounds@.len() == rcount,
                elections.election_data.rounds@[rj as int]
                    == old(elections).election_data.rounds@[rj as int],
                old(elections).election_data.rounds@[rj as int].vote_distribution@.len()
                    == dcount,
                dist@.len() == d,
                forall|d2: int| 0 <= d2 < d ==> {
                    let db = #[trigger] old(
                        elections,
                    ).election_data.rounds@[rj as int].vote_distribution@[d2];
                    let da = dist@[d2];
                    account_eqv(da.candidate, db.candidate) && da.stake_applied
                        == db.stake_applied && da.voter_count == db.voter_count
                },
            decreases dcount - d,
        {
            let entry = &elections.election_data.rounds[rj].vote_distribution[d];
            let candidate = clone_api_account(&entry.candidate);
            dist.push(
                ApiVoteDistribution {
                    candidate,
                    stake_applied: entry.stake_applied,
                    voter_count: entry.voter_count,
                },
            );
            d = d + 1;
        }
        elections.election_data.rounds.set(
            rj,
            ApiRound { round_number, scores, vote_distribution: dist },
        );
        rj = rj + 1;
    }
}

impl ApiElectionResults {
    /// Wraps the election data with the hex block hash it came from.
    pub fn build_from(onchain: &OnchainElectionsData, phragmen: &PhragmenOutputs) -> (r:
        ApiElectionResults)
        requires
            forall|rr: int| 1 <= rr <= count_elected(phragmen.candidates@)
                ==> round_filled(phragmen.candidates@, rr),
            forall|i: int| 0 <= i < phragmen.candidates@.len()
                ==> ((#[trigger] phragmen.candidates@[i]).elected <==> 1
                    <= phragmen.candidates@[i].round <= count_elected(phragmen.candidates@)),
        ensures
            r.block_hash@ == "0x"@ + hex_of_bytes(onchain.block_hash@),
            election_data_built(r.election_data, *onchain, *phragmen),
    {
        let mut block_hash = String::new();
        block_hash.append("0x");
        append_hex(&mut block_hash, &onchain.block_hash);
        proof {
            assert(block_hash@ =~= "0x"@ + hex_of_bytes(onchain.block_hash@));
        }
        let election_data = ApiElectionData::build_from(onchain, phragmen);
        ApiElectionResults { block_hash, election_data }
    }
}

} // verus!
