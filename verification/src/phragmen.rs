//! Input preparation and the engine entry points.

use vstd::prelude::*;
use crate::account::AccountId;
use crate::engine::{engine_post, pool_ids, seq_phragmen};
use crate::types::{ElectionsError, OnchainElectionsData, PhragmenInputs, PhragmenOutputs};

verus! {

/// The raw candidate pool before deduplication: current members, then
/// runners-up, then fresh candidates, in that order.
pub open spec fn raw_pool(onchain: OnchainElectionsData) -> Seq<AccountId> {
    onchain.members@.map_values(|s: crate::types::SeatHolder| s.who)
        + onchain.runners_up@.map_values(|s: crate::types::SeatHolder| s.who)
        + onchain.candidates@.map_values(|p: (AccountId, u128)| p.0)
}

/// The number of seats to elect: members plus runners-up, saturating
/// in `u32`.
pub open spec fn spec_to_elect(onchain: OnchainElectionsData) -> int {
    if onchain.desired_members + onchain.desired_runners_up > u32::MAX {
        u32::MAX as int
    } else {
        onchain.desired_members + onchain.desired_runners_up
    }
}

/// What `prepare_phragmen_inputs` promises: the deduplicated pool in
/// role order, the saturating seat count, and the voting records
/// projected 1:1 (stakes truncated to `u64`).
pub open spec fn prepare_post(onchain: OnchainElectionsData, r: PhragmenInputs) -> bool {
    &&& r.to_elect == spec_to_elect(onchain)
    &&& r.candidates@ == pool_ids(raw_pool(onchain))
    &&& r.voters@.len() == onchain.voting@.len()
    &&& forall|i: int| 0 <= i < onchain.voting@.len() ==> {
        let v = #[trigger] r.voters@[i];
        &&& v.0 == onchain.voting@[i].0
        &&& v.1 == onchain.voting@[i].1.stake as u64
        &&& v.2@ == onchain.voting@[i].1.votes@
    }
}

/// Drops later duplicates of each account, keeping first occurrences.
fn dedup_ids(ids: &Vec<AccountId>) -> (r: Vec<AccountId>)
    ensures
        r@ == pool_ids(ids@),
{
    let mut out: Vec<AccountId> = Vec::new();
    let mut i: usize = 0;
    while i < ids.len()
        invariant
            i <= ids@.len(),
            out@ == pool_ids(ids@.take(i as int)),
        decreases ids@.len() - i,
    {
        let id = ids[i];
        let mut found = false;
        let mut k: usize = 0;
        while k < out.len()
            invariant
                k <= out@.len(),
                found <==> exists|m: int| 0 <= m < k && out@[m] == id,
            decreases out@.len() - k,
        {
            if out[k].eq_account(&id) {
                found = true;
            }
            k = k + 1;
        }
        proof {
            assert(ids@.take(i + 1).drop_last() =~= ids@.take(i as int));
            assert(ids@.take(i + 1).last() == ids@[i as int]);
            if found {
                assert(out@.contains(id));
            } else {
                if out@.contains(id) {
                    let m = choose|m: int| 0 <= m < out@.len() && out@[m] == id;
                    assert(false);
                }
            }
        }
        if !found {
            out.push(id);
        }
        i = i + 1;
    }
    proof {
        assert(ids@.take(ids@.len() as int) =~= ids@);
    }
    out
}

/// An exact copy of an account list.
fn clone_accounts(v: &Vec<AccountId>) -> (r: Vec<AccountId>)
    ensures
        r@ == v@,
{
    let mut r: Vec<AccountId> = Vec::new();
    let mut i: usize = 0;
    while i < v.len()
        invariant
            i <= v.len(),
            r@ =~= v@.take(i as int),
        decreases v.len() - i,
    {
        r.push(v[i]);
        i = i + 1;
    }
    proof {
        assert(r@ =~= v@);
    }
    r
}

/// Projects the on-chain snapshot into engine inputs: merges the seat
/// holders, runners-up and candidates into one pool (duplicates keep
/// their first occurrence), computes the seat count, and projects each
/// voting record to `(voter, stake, approvals)`.
pub fn prepare_phragmen_inputs(onchain: &OnchainElectionsData) -> (r: PhragmenInputs)
    ensures
        prepare_post(*onchain, r),
{
    let ghost raw = raw_pool(*onchain);
    let mut ids: Vec<AccountId> = Vec::new();
    let mut i: usize = 0;
    while i < onchain.members.len()
        invariant
            i <= onchain.members@.len(),
            ids@ =~= onchain.members@.take(i as int).map_values(
                |s: crate::types::SeatHolder| s.who,
            ),
        decreases onchain.members@.len() - i,
    {
        ids.push(onchain.members[i].who);
        proof {
            assert(ids@ =~= onchain.members@.take(i + 1).map_values(
                |s: crate::types::SeatHolder| s.who,
            ));
        }
        i = i + 1;
    }
    let mut j: usize = 0;
    while j < onchain.runners_up.len()
        invariant
            j <= onchain.runners_up@.len(),
            ids@ =~= onchain.members@.map_values(|s: crate::types::SeatHolder| s.who)
                + onchain.runners_up@.take(j as int).map_values(
                |s: crate::types::SeatHolder| s.who,
            ),
        decreases onchain.runners_up@.len() - j,
    {
        ids.push(onchain.runners_up[j].who);
        proof {
            assert(ids@ =~= onchain.members@.map_values(|s: crate::types::SeatHolder| s.who)
                + onchain.runners_up@.take(j + 1).map_values(
                |s: crate::types::SeatHolder| s.who,
            ));
        }
        j = j + 1;
    }
    let mut k: usize = 0;
    while k < onchain.candidates.len()
        invariant
            k <= onchain.candidates@.len(),
            ids@ =~= onchain.members@.map_values(|s: crate::types::SeatHolder| s.who)
                + onchain.runners_up@.map_values(|s: crate::types::SeatHolder| s.who)
                + onchain.candidates@.take(k as int).map_values(|p: (AccountId, u128)| p.0),
        decreases onchain.candidates@.len() - k,
    {
        ids.push(onchain.candidates[k].0);
        proof {
            assert(ids@ =~= onchain.members@.map_values(|s: crate::types::SeatHolder| s.who)
                + onchain.runners_up@.map_values(|s: crate::types::SeatHolder| s.who)
                + onchain.candidates@.take(k + 1).map_values(|p: (AccountId, u128)| p.0));
        }
        k = k + 1;
    }
    proof {
        assert(onchain.members@.take(onchain.members@.len() as int) =~= onchain.members@);
        assert(onchain.runners_up@.take(onchain.runners_up@.len() as int)
            =~= onchain.runners_up@);
        assert(onchain.candidates@.take(onchain.candidates@.len() as int)
            =~= onchain.candidates@);
        assert(ids@ =~= raw);
    }
    let candidates = dedup_ids(&ids);
    let to_elect = onchain.desired_members.saturating_add(onchain.desired_runners_up) as usize;
    let mut voters: Vec<(AccountId, u64, Vec<AccountId>)> = Vec::new();
    let mut v: usize = 0;
    while v < onchain.voting.len()
        invariant
            v <= onchain.voting@.len(),
            voters@.len() == v,
            forall|m: int| 0 <= m < v ==> {
                let rec = #[trigger] voters@[m];
                &&& rec.0 == onchain.voting@[m].0
                &&& rec.1 == onchain.voting@[m].1.stake as u64
                &&& rec.2@ == onchain.voting@[m].1.votes@
            },
        decreases onchain.voting@.len() - v,
    {
        let rec = &onchain.voting[v];
        let votes = clone_accounts(&rec.1.votes);
        #[verifier::truncate]
        let stake = rec.1.stake as u64;
        voters.push((rec.0, stake, votes));
        v = v + 1;
    }
    PhragmenInputs { to_elect, candidates, voters }
}

/// Runs the Sequential Phragmén engine on prepared inputs.
pub fn run_phragmen(inputs: &PhragmenInputs) -> (r: Result<PhragmenOutputs, ElectionsError>)
    ensures
        engine_post(inputs.to_elect, inputs.candidates@, inputs.voters@, r),
{
    seq_phragmen(inputs.to_elect, &inputs.candidates, &inputs.voters)
}

/// Prepares the on-chain snapshot and runs the engine on it.
pub fn simulate_weighted_phragmen_elections(onchain: &OnchainElectionsData) -> (r: Result<
    PhragmenOutputs,
    ElectionsError,
>)
    ensures
        exists|inputs: PhragmenInputs|
            #[trigger] prepare_post(*onchain, inputs) && engine_post(
                inputs.to_elect,
                inputs.candidates@,
                inputs.voters@,
                r,
            ),
{
    let inputs = prepare_phragmen_inputs(onchain);
    let result = run_phragmen(&inputs);
    proof {
        assert(prepare_post(*onchain, inputs) && engine_post(
            inputs.to_elect,
            inputs.candidates@,
            inputs.voters@,
            result,
        ));
    }
    result
}

} // verus!
