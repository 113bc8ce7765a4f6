//! The Sequential Phragmén election engine with tracing.
//!
//! The engine owns a dense arena of candidates; every voter edge names
//! its candidate both by account and by arena index.  Each round scores
//! the not-yet-elected candidates, elects the one with the smallest
//! score (ties broken by the smaller account id), and redistributes the
//! voters' loads.  Every state change is emitted as a trace event.

use vstd::prelude::*;
use vstd::pervasive::VecAdditionalExecFns;
use crate::account::AccountId;
use crate::rational::Rational128;
use crate::trace::{
    CandidateScoreUpdate, CandidateScoreUpdateByVoter, EdgeLoadUpdate, LoadUpdate, PhragmenTrace,
};
use crate::types::{ElectionsError, PhragmenOutputs};

verus! {

/// One candidate record of the arena.
#[derive(Clone, Copy, Debug, PartialEq)]
pub struct Candidate {
    /// Identity; immutable once created.
    pub who: AccountId,
    /// Current Phragmén score.
    pub score: Rational128,
    /// Sum of the stakes of the voters approving this candidate.
    pub approval_stake: u128,
    /// Becomes true exactly once.
    pub elected: bool,
    /// The 1-based round in which the candidate was elected.
    pub round: usize,
    /// Final applied stake, filled after the rounds.
    pub backed_stake: u128,
}

/// A voter→candidate relation carrying a load and a final weight.
#[derive(Clone, Copy, Debug, PartialEq)]
pub struct Edge {
    /// The account the edge points at.
    pub candidate: AccountId,
    /// The arena index of that account's candidate record.
    pub candidate_index: usize,
    /// Load assigned when the candidate is elected.
    pub load: Rational128,
    /// Final stake applied to this edge, filled after the rounds.
    pub weight: u128,
}

/// One voter with its budget, accumulated load and approval edges.
#[derive(Debug, PartialEq)]
pub struct Voter {
    pub who: AccountId,
    pub stake: u64,
    pub load: Rational128,
    pub edges: Vec<Edge>,
}

/// The ghost value of a voter.
pub ghost struct VoterModel {
    pub who: AccountId,
    pub stake: u64,
    pub load: Rational128,
    pub edges: Seq<Edge>,
}

impl View for Voter {
    type V = VoterModel;

    open spec fn view(&self) -> VoterModel {
        VoterModel { who: self.who, stake: self.stake, load: self.load, edges: self.edges@ }
    }
}

impl Clone for Voter {
    fn clone(&self) -> (r: Self)
        ensures
            r@ == self@,
    {
        Voter {
            who: self.who,
            stake: self.stake,
            load: self.load,
            edges: copy_edges(&self.edges),
        }
    }
}

/// The winners of a run, in round order, each with its final score
/// normalized to parts-per-billion.
#[derive(Clone, Debug, PartialEq)]
pub struct ElectionResult {
    pub winners: Vec<(AccountId, u32)>,
}

/// An exact copy of an edge list.
fn copy_edges(v: &Vec<Edge>) -> (r: Vec<Edge>)
    ensures
        r@ == v@,
{
    let mut r: Vec<Edge> = Vec::new();
    let mut i: usize = 0;
    while i < v.len()
        invariant
            i <= v.len(),
            r@ =~= v@.take(i as int),
        decreases v.len() - i,
    {
        r.push(v[i]);
        i = i + 1;
    }
    proof {
        assert(r@ =~= v@);
    }
    r
}

/// An exact copy of a candidate list (used for trace snapshots).
pub fn clone_candidates(v: &Vec<Candidate>) -> (r: Vec<Candidate>)
    ensures
        r@ == v@,
{
    let mut r: Vec<Candidate> = Vec::new();
    let mut i: usize = 0;
    while i < v.len()
        invariant
            i <= v.len(),
            r@ =~= v@.take(i as int),
        decreases v.len() - i,
    {
        r.push(v[i]);
        i = i + 1;
    }
    proof {
        assert(r@ =~= v@);
    }
    r
}

/// A value copy of a voter list (used for trace snapshots).
pub fn clone_voters(v: &Vec<Voter>) -> (r: Vec<Voter>)
    ensures
        r@.len() == v@.len(),
        forall|i: int| 0 <= i < v@.len() ==> #[trigger] r@[i]@ == v@[i]@,
{
    let mut r: Vec<Voter> = Vec::new();
    let mut i: usize = 0;
    while i < v.len()
        invariant
            i <= v.len(),
            r@.len() == i,
            forall|j: int| 0 <= j < i ==> #[trigger] r@[j]@ == v@[j]@,
        decreases v.len() - i,
    {
        r.push(v[i].clone());
        i = i + 1;
    }
    r
}

/// A fresh, unelected candidate record for an account.
pub open spec fn init_candidate(who: AccountId) -> Candidate {
    Candidate {
        who,
        score: crate::rational::rat_zero(),
        approval_stake: 0u128,
        elected: false,
        round: 0usize,
        backed_stake: 0u128,
    }
}

/// The candidate pool: the input ids with duplicates dropped, keeping
/// the first occurrence of each account.
pub open spec fn pool_ids(ids: Seq<AccountId>) -> Seq<AccountId>
    decreases ids.len(),
{
    if ids.len() == 0 {
        Seq::empty()
    } else {
        let rest = pool_ids(ids.drop_last());
        if rest.contains(ids.last()) {
            rest
        } else {
            rest.push(ids.last())
        }
    }
}

/// Membership in a sequence extended by one element.
proof fn lemma_contains_push<A>(s: Seq<A>, x: A, a: A)
    ensures
        s.push(x).contains(a) <==> (s.contains(a) || a == x),
{
    if s.push(x).contains(a) {
        let i = choose|i: int| 0 <= i < s.push(x).len() && s.push(x)[i] == a;
        if i < s.len() {
            assert(s[i] == a);
        }
    }
    if s.contains(a) {
        let i = choose|i: int| 0 <= i < s.len() && s[i] == a;
        assert(s.push(x)[i] == a);
    }
    if a == x {
        assert(s.push(x)[s.len() as int] == a);
    }
}

/// Membership in a sequence shortened by its last element.
proof fn lemma_contains_drop_last<A>(s: Seq<A>, a: A)
    requires
        s.len() > 0,
    ensures
        s.contains(a) <==> (s.drop_last().contains(a) || a == s.last()),
{
    if s.contains(a) {
        let i = choose|i: int| 0 <= i < s.len() && s[i] == a;
        if i < s.len() - 1 {
            assert(s.drop_last()[i] == a);
        }
    }
    if s.drop_last().contains(a) {
        let i = choose|i: int| 0 <= i < s.drop_last().len() && s.drop_last()[i] == a;
        assert(s[i] == a);
    }
    if a == s.last() {
        assert(s[s.len() - 1] == a);
    }
}

/// The pool holds each account at most once, and exactly the accounts
/// of the input.
pub proof fn lemma_pool_ids_distinct(ids: Seq<AccountId>)
    ensures
        forall|i: int, j: int|
            0 <= i < j < pool_ids(ids).len() ==> pool_ids(ids)[i] != pool_ids(ids)[j],
        forall|a: AccountId| pool_ids(ids).contains(a) == ids.contains(a),
    decreases ids.len(),
{
    if ids.len() > 0 {
        lemma_pool_ids_distinct(ids.drop_last());
        let rest = pool_ids(ids.drop_last());
        let last = ids.last();
        assert forall|a: AccountId| pool_ids(ids).contains(a) == ids.contains(a) by {
            lemma_contains_drop_last(ids, a);
            if rest.contains(last) {
                if a == last {
                    assert(ids.drop_last().contains(a));
                }
            } else {
                lemma_contains_push(rest, last, a);
            }
        }
        if !rest.contains(last) {
            assert forall|i: int, j: int|
                0 <= i < j < pool_ids(ids).len() implies pool_ids(ids)[i] != pool_ids(ids)[j]
            by {
                if j < rest.len() {
                } else {
                    assert(pool_ids(ids)[j] == last);
                    assert(rest[i] == pool_ids(ids)[i]);
                    if rest[i] == last {
                        assert(rest.contains(last));
                    }
                }
            }
        }
    }
}

/// Saturating `u128` addition, as a mathematical function.
pub open spec fn sat_add_u128_int(a: int, b: int) -> int {
    if a + b > u128::MAX {
        u128::MAX as int
    } else {
        a + b
    }
}

/// The arena index of the first candidate with the given account, or
/// `-1` when there is none.
pub open spec fn find_candidate(cands: Seq<Candidate>, who: AccountId) -> int
    decreases cands.len(),
{
    if cands.len() == 0 {
        -1
    } else if cands[0].who == who {
        0
    } else {
        let r = find_candidate(cands.skip(1), who);
        if r < 0 {
            -1
        } else {
            r + 1
        }
    }
}

/// What `find_candidate` returns: `-1` exactly when the account is
/// absent, else the first index holding it.
pub proof fn lemma_find_candidate_char(cands: Seq<Candidate>, who: AccountId)
    ensures
        find_candidate(cands, who) == -1 <==> (forall|j: int|
            0 <= j < cands.len() ==> cands[j].who != who),
        find_candidate(cands, who) >= 0 ==> {
            let r = find_candidate(cands, who);
            &&& r < cands.len()
            &&& cands[r].who == who
            &&& forall|j: int| 0 <= j < r ==> cands[j].who != who
        },
    decreases cands.len(),
{
    if cands.len() > 0 && cands[0].who != who {
        lemma_find_candidate_char(cands.skip(1), who);
        let r1 = find_candidate(cands.skip(1), who);
        if r1 == -1 {
            assert forall|j: int| 0 <= j < cands.len() implies cands[j].who != who by {
                if j > 0 {
                    assert(cands.skip(1)[j - 1] == cands[j]);
                }
            }
        } else {
            let r = r1 + 1;
            assert(cands.skip(1)[r1] == cands[r]);
            assert forall|j: int| 0 <= j < r implies cands[j].who != who by {
                if j > 0 {
                    assert(cands.skip(1)[j - 1] == cands[j]);
                }
            }
            assert(cands[r].who == who);
        }
    }
}

/// One voter's pass over its approvals: each approval that names a
/// pooled candidate adds the voter's stake to that candidate's approval
/// stake (saturating) and appends a fresh edge; unknown approvals are
/// dropped.
pub open spec fn sv_votes(
    cands: Seq<Candidate>,
    stake: u64,
    votes: Seq<AccountId>,
    edges: Seq<Edge>,
) -> (Seq<Candidate>, Seq<Edge>)
    decreases votes.len(),
{
    if votes.len() == 0 {
        (cands, edges)
    } else {
        let who = votes[0];
        let i = find_candidate(cands, who);
        if i < 0 {
            sv_votes(cands, stake, votes.skip(1), edges)
        } else {
            let c = cands[i];
            let c2 = Candidate {
                approval_stake: sat_add_u128_int(c.approval_stake as int, stake as int) as u128,
                ..c
            };
            sv_votes(
                cands.update(i, c2),
                stake,
                votes.skip(1),
                edges.push(
                    Edge {
                        candidate: who,
                        candidate_index: i as usize,
                        load: crate::rational::rat_zero(),
                        weight: 0u128,
                    },
                ),
            )
        }
    }
}

/// The whole voter pass: projects every record into a fresh voter with
/// zero load and the edges of its resolved approvals, accumulating
/// approval stakes on the candidates.
pub open spec fn sv_voters(
    cands: Seq<Candidate>,
    vs: Seq<(AccountId, u64, Vec<AccountId>)>,
    out: Seq<VoterModel>,
) -> (Seq<Candidate>, Seq<VoterModel>)
    decreases vs.len(),
{
    if vs.len() == 0 {
        (cands, out)
    } else {
        let step = sv_votes(cands, vs[0].1, vs[0].2@, Seq::empty());
        sv_voters(
            step.0,
            vs.skip(1),
            out.push(
                VoterModel {
                    who: vs[0].0,
                    stake: vs[0].1,
                    load: crate::rational::rat_zero(),
                    edges: step.1,
                },
            ),
        )
    }
}

/// Builds the candidate arena from the input ids, dropping duplicate
/// accounts (first occurrence wins).
pub fn setup_candidates(ids: &Vec<AccountId>) -> (r: Vec<Candidate>)
    ensures
        r@.len() == pool_ids(ids@).len(),
        forall|i: int| 0 <= i < r@.len() ==> #[trigger] r@[i] == init_candidate(pool_ids(ids@)[i]),
{
    let mut cands: Vec<Candidate> = Vec::new();
    let mut i: usize = 0;
    while i < ids.len()
        invariant
            i <= ids.len(),
            cands@.len() == pool_ids(ids@.take(i as int)).len(),
            forall|k: int| 0 <= k < cands@.len()
                ==> #[trigger] cands@[k] == init_candidate(pool_ids(ids@.take(i as int))[k]),
        decreases ids.len() - i,
    {
        let ghost pool = pool_ids(ids@.take(i as int));
        let id = ids[i];
        // look for an existing record with the same account
        let mut found = false;
        let mut k: usize = 0;
        while k < cands.len()
            invariant
                k <= cands@.len(),
                cands@.len() == pool.len(),
                forall|m: int| 0 <= m < cands@.len()
                    ==> #[trigger] cands@[m] == init_candidate(pool[m]),
                found <==> exists|m: int| 0 <= m < k && cands@[m].who == id,
            decreases cands.len() - k,
        {
            if cands[k].who.eq_account(&id) {
                found = true;
            }
            k = k + 1;
        }
        proof {
            assert(ids@.take(i + 1).drop_last() =~= ids@.take(i as int));
            assert(ids@.take(i + 1).last() == ids@[i as int]);
            assert forall|m: int| 0 <= m < pool.len() implies pool[m] == cands@[m].who by {
                assert(cands@[m] == init_candidate(pool[m]));
            }
            if found {
                assert(pool.contains(id));
            } else {
                if pool.contains(id) {
                    let m = choose|m: int| 0 <= m < pool.len() && pool[m] == id;
                    assert(cands@[m].who == id);
                    assert(false);
                }
            }
        }
        if !found {
            cands.push(
                Candidate {
                    who: id,
                    score: Rational128 { n: 0, d: 1 },
                    approval_stake: 0,
                    elected: false,
                    round: 0,
                    backed_stake: 0,
                },
            );
        }
        i = i + 1;
    }
    proof {
        assert(ids@.take(ids@.len() as int) =~= ids@);
    }
    cands
}

/// The arena index of the first candidate with the given account.
pub fn find_candidate_index(cands: &Vec<Candidate>, who: &AccountId) -> (r: Option<usize>)
    ensures
        match r {
            Some(i) => find_candidate(cands@, *who) == i && i < cands@.len()
                && cands@[i as int].who == *who
                && (forall|j: int| 0 <= j < i ==> cands@[j].who != *who),
            None => find_candidate(cands@, *who) == -1 && (forall|j: int|
                0 <= j < cands@.len() ==> cands@[j].who != *who),
        },
{
    proof {
        lemma_find_candidate_char(cands@, *who);
    }
    let mut k: usize = 0;
    while k < cands.len()
        invariant
            k <= cands@.len(),
            forall|j: int| 0 <= j < k ==> cands@[j].who != *who,
            find_candidate(cands@, *who) == -1 <==> (forall|j: int|
                0 <= j < cands@.len() ==> cands@[j].who != *who),
            find_candidate(cands@, *who) >= 0 ==> {
                let r = find_candidate(cands@, *who);
                &&& r < cands@.len()
                &&& cands@[r].who == *who
                &&& forall|j: int| 0 <= j < r ==> cands@[j].who != *who
            },
        decreases cands.len() - k,
    {
        if cands[k].who.eq_account(who) {
            proof {
                let r = find_candidate(cands@, *who);
                assert(r >= 0);
                if r < k {
                    assert(cands@[r].who == *who);
                    assert(false);
                }
                if r > k {
                    assert(cands@[k as int].who != *who);
                    assert(false);
                }
            }
            return Some(k);
        }
        k = k + 1;
    }
    None
}

/// Builds the voters and accumulates approval stakes on the candidates.
pub fn setup_voters(
    voters_in: &Vec<(AccountId, u64, Vec<AccountId>)>,
    cands: &mut Vec<Candidate>,
) -> (r: Vec<Voter>)
    ensures
        final(cands)@ == sv_voters(old(cands)@, voters_in@, Seq::empty()).0,
        r@.len() == sv_voters(old(cands)@, voters_in@, Seq::empty()).1.len(),
        forall|i: int| 0 <= i < r@.len()
            ==> #[trigger] r@[i]@ == sv_voters(old(cands)@, voters_in@, Seq::empty()).1[i],
{
    let ghost goal = sv_voters(old(cands)@, voters_in@, Seq::empty());
    let mut out: Vec<Voter> = Vec::new();
    let mut i: usize = 0;
    proof {
        assert(voters_in@.skip(0) =~= voters_in@);
        assert(models(out@) =~= Seq::<VoterModel>::empty());
    }
    while i < voters_in.len()
        invariant
            i <= voters_in@.len(),
            out@.len() == i,
            goal == sv_voters(old(cands)@, voters_in@, Seq::empty()),
            sv_voters(cands@, voters_in@.skip(i as int), models(out@)) == goal,
        decreases voters_in@.len() - i,
    {
        let rec = &voters_in[i];
        let who = rec.0;
        let stake = rec.1;
        let ghost cands_enter = cands@;
        let ghost votes_seq = rec.2@;
        let mut edges: Vec<Edge> = Vec::new();
        let mut j: usize = 0;
        proof {
            assert(votes_seq.skip(0) =~= votes_seq);
        }
        while j < rec.2.len()
            invariant
                j <= votes_seq.len(),
                rec.2@ == votes_seq,
                sv_votes(cands@, stake, votes_seq.skip(j as int), edges@)
                    == sv_votes(cands_enter, stake, votes_seq, Seq::empty()),
            decreases votes_seq.len() - j,
        {
            let vote = rec.2[j];
            proof {
                assert(votes_seq.skip(j as int)[0] == votes_seq[j as int]);
                assert(votes_seq.skip(j as int).skip(1) =~= votes_seq.skip(j + 1));
            }
            match find_candidate_index(cands, &vote) {
                Some(ci) => {
                    let c = cands[ci];
                    let c2 = Candidate {
                        approval_stake: c.approval_stake.saturating_add(stake as u128),
                        ..c
                    };
                    cands.set(ci, c2);
                    edges.push(
                        Edge {
                            candidate: vote,
                            candidate_index: ci,
                            load: Rational128 { n: 0, d: 1 },
                            weight: 0,
                        },
                    );
                }
                None => {}
            }
            j = j + 1;
        }
        proof {
            assert(votes_seq.skip(votes_seq.len() as int) =~= Seq::<AccountId>::empty());
            assert(sv_votes(cands@, stake, Seq::empty(), edges@) == (cands@, edges@));
            assert(voters_in@.skip(i as int)[0] == voters_in@[i as int]);
            assert(voters_in@.skip(i as int).skip(1) =~= voters_in@.skip(i + 1));
        }
        let voter = Voter {
            who,
            stake,
            load: Rational128 { n: 0, d: 1 },
            edges,
        };
        proof {
            let vm = voter@;
            assert(models(out@.push(voter)) =~= models(out@).push(vm));
        }
        out.push(voter);
        i = i + 1;
    }
    proof {
        assert(voters_in@.skip(voters_in@.len() as int)
            =~= Seq::<(AccountId, u64, Vec<AccountId>)>::empty());
    }
    out
}

/// The ghost values of a voter list.
pub open spec fn models(vs: Seq<Voter>) -> Seq<VoterModel> {
    vs.map_values(|v: Voter| v@)
}

/// The candidate pool as fresh records: the deduplicated input ids.
pub open spec fn initial_candidates(ids: Seq<AccountId>) -> Seq<Candidate> {
    pool_ids(ids).map_values(|a: AccountId| init_candidate(a))
}

/// The full setup: the pool with accumulated approval stakes, and the
/// voters with their resolved edges.
pub open spec fn setup_state(
    ids: Seq<AccountId>,
    vs: Seq<(AccountId, u64, Vec<AccountId>)>,
) -> (Seq<Candidate>, Seq<VoterModel>) {
    sv_voters(initial_candidates(ids), vs, Seq::empty())
}

/// Every edge of the voter points into the arena, at the candidate it
/// names, and carries a well-formed load.
pub open spec fn edges_wf(cands: Seq<Candidate>, vm: VoterModel) -> bool {
    forall|k: int| 0 <= k < vm.edges.len() ==> {
        let e = #[trigger] vm.edges[k];
        &&& e.candidate_index < cands.len()
        &&& cands[e.candidate_index as int].who == e.candidate
        &&& e.load.wf()
    }
}

/// Structural well-formedness of the whole engine state.
pub open spec fn state_wf(cands: Seq<Candidate>, voters: Seq<VoterModel>) -> bool {
    &&& forall|i: int, j: int| 0 <= i < j < cands.len() ==> cands[i].who != cands[j].who
    &&& forall|i: int| 0 <= i < cands.len() ==> (#[trigger] cands[i].score).wf()
    &&& forall|v: int| 0 <= v < voters.len() ==> (#[trigger] voters[v]).load.wf()
        && edges_wf(cands, voters[v])
}

/// Edges to not-yet-elected candidates still carry their initial zero
/// load.
pub open spec fn unelected_edges_zero(cands: Seq<Candidate>, voters: Seq<VoterModel>) -> bool {
    forall|v: int, k: int|
        0 <= v < voters.len() && 0 <= k < voters[v].edges.len()
            && !cands[(#[trigger] voters[v].edges[k]).candidate_index as int].elected
            ==> voters[v].edges[k].load == crate::rational::rat_zero()
}

/// The exact (unsaturated) rational sum of the loads of the edges that
/// point at elected candidates, as an unbounded numerator/denominator
/// pair.
pub open spec fn sum_elected_loads(cands: Seq<Candidate>, edges: Seq<Edge>) -> (int, int)
    decreases edges.len(),
{
    if edges.len() == 0 {
        (0int, 1int)
    } else {
        let p = sum_elected_loads(cands, edges.drop_last());
        let e = edges.last();
        if e.candidate_index < cands.len() && cands[e.candidate_index as int].elected {
            (p.0 * e.load.d + e.load.n * p.1, p.1 * e.load.d)
        } else {
            p
        }
    }
}

/// The voter's load equals, as an exact rational value, the sum of its
/// elected-edge loads.
pub open spec fn loads_balanced(cands: Seq<Candidate>, vm: VoterModel) -> bool {
    let s = sum_elected_loads(cands, vm.edges);
    vm.load.n * s.1 == s.0 * vm.load.d
}

/// No load of the voter has saturated.
pub open spec fn loads_finite(vm: VoterModel) -> bool {
    &&& !vm.load.spec_is_infinite()
    &&& forall|k: int| 0 <= k < vm.edges.len()
        ==> !(#[trigger] vm.edges[k]).load.spec_is_infinite()
}

/// What holds of every voter while no arithmetic has saturated.
pub open spec fn clean_voters(cands: Seq<Candidate>, voters: Seq<VoterModel>) -> bool {
    forall|v: int| 0 <= v < voters.len() ==> loads_balanced(cands, #[trigger] voters[v])
        && loads_finite(voters[v])
}

/// The denominator of the elected-load sum is positive, and the
/// numerator non-negative.
pub proof fn lemma_sum_elected_loads_pos(cands: Seq<Candidate>, edges: Seq<Edge>)
    requires
        forall|k: int| 0 <= k < edges.len() ==> (#[trigger] edges[k]).load.wf(),
    ensures
        sum_elected_loads(cands, edges).1 >= 1,
        sum_elected_loads(cands, edges).0 >= 0,
    decreases edges.len(),
{
    if edges.len() > 0 {
        lemma_sum_elected_loads_pos(cands, edges.drop_last());
        let p = sum_elected_loads(cands, edges.drop_last());
        let e = edges.last();
        if e.candidate_index < cands.len() && cands[e.candidate_index as int].elected {
            assert(p.1 * e.load.d >= 1) by (nonlinear_arith)
                requires p.1 >= 1, e.load.d >= 1;
            assert(p.0 * e.load.d + e.load.n * p.1 >= 0) by (nonlinear_arith)
                requires p.0 >= 0, p.1 >= 1, e.load.d >= 1, e.load.n >= 0;
        }
    }
}

/// The elected-load sum only looks at each edge's target's `elected`
/// flag and the edge loads; candidates that agree on those yield the
/// same sum.
pub proof fn lemma_sum_elected_loads_same(
    cands1: Seq<Candidate>,
    cands2: Seq<Candidate>,
    edges: Seq<Edge>,
)
    requires
        cands1.len() == cands2.len(),
        forall|i: int| 0 <= i < cands1.len()
            ==> (#[trigger] cands1[i]).elected == cands2[i].elected,
    ensures
        sum_elected_loads(cands1, edges) == sum_elected_loads(cands2, edges),
    decreases edges.len(),
{
    if edges.len() > 0 {
        lemma_sum_elected_loads_same(cands1, cands2, edges.drop_last());
    }
}

/// Electing one more candidate whose incoming edges all carry zero load
/// does not change any voter's elected-load sum value.
pub proof fn lemma_sum_elected_loads_elect(
    cands1: Seq<Candidate>,
    cands2: Seq<Candidate>,
    edges: Seq<Edge>,
    w: int,
)
    requires
        cands1.len() == cands2.len(),
        0 <= w < cands1.len(),
        !cands1[w].elected,
        cands2[w].elected,
        forall|i: int| 0 <= i < cands1.len() && i != w
            ==> (#[trigger] cands1[i]).elected == cands2[i].elected,
        forall|k: int| 0 <= k < edges.len() && (#[trigger] edges[k]).candidate_index == w
            ==> edges[k].load == crate::rational::rat_zero(),
        forall|k: int| 0 <= k < edges.len() ==> (#[trigger] edges[k]).load.wf(),
    ensures
        ({
            let s1 = sum_elected_loads(cands1, edges);
            let s2 = sum_elected_loads(cands2, edges);
            s1.0 * s2.1 == s2.0 * s1.1
        }),
    decreases edges.len(),
{
    if edges.len() > 0 {
        lemma_sum_elected_loads_elect(cands1, cands2, edges.drop_last(), w);
        lemma_sum_elected_loads_pos(cands1, edges.drop_last());
        lemma_sum_elected_loads_pos(cands2, edges.drop_last());
        let p1 = sum_elected_loads(cands1, edges.drop_last());
        let p2 = sum_elected_loads(cands2, edges.drop_last());
        let e = edges.last();
        let s1 = sum_elected_loads(cands1, edges);
        let s2 = sum_elected_loads(cands2, edges);
        assert(forall|k: int| 0 <= k < edges.drop_last().len()
            ==> edges.drop_last()[k] == edges[k]);
        if e.candidate_index < cands1.len() {
            if e.candidate_index == w {
                // the edge's load is zero, so adding it keeps the value
                assert(e.load == crate::rational::rat_zero());
                assert(s2 == (p2.0 * e.load.d + e.load.n * p2.1, p2.1 * e.load.d));
                assert(s1 == p1);
                assert(s1.0 * s2.1 == s2.0 * s1.1) by (nonlinear_arith)
                    requires
                        s1 == p1,
                        s2.0 == p2.0 * 1 + 0 * p2.1,
                        s2.1 == p2.1 * 1,
                        p1.0 * p2.1 == p2.0 * p1.1,
                ;
            } else if cands1[e.candidate_index as int].elected {
                assert(s1 == (p1.0 * e.load.d + e.load.n * p1.1, p1.1 * e.load.d));
                assert(s2 == (p2.0 * e.load.d + e.load.n * p2.1, p2.1 * e.load.d));
                assert(s1.0 * s2.1 == s2.0 * s1.1) by (nonlinear_arith)
                    requires
                        s1.0 == p1.0 * e.load.d + e.load.n * p1.1,
                        s1.1 == p1.1 * e.load.d,
                        s2.0 == p2.0 * e.load.d + e.load.n * p2.1,
                        s2.1 == p2.1 * e.load.d,
                        p1.0 * p2.1 == p2.0 * p1.1,
                        e.load.d >= 1,
                        p1.1 >= 1,
                        p2.1 >= 1,
                ;
            }
        }
    }
}

/// The base score of a candidate at the start of a round: the
/// reciprocal of its approval stake, or infinity for a zero stake.
pub open spec fn base_score(c: Candidate) -> Rational128 {
    if c.approval_stake == 0 {
        crate::rational::rat_infinity()
    } else {
        Rational128 { n: 1u128, d: c.approval_stake }
    }
}

/// Phase A applied to one candidate.
pub open spec fn phase_a_candidate(c: Candidate) -> Candidate {
    if c.elected {
        c
    } else {
        Candidate { score: base_score(c), ..c }
    }
}

/// How many `RoundStart` events a trace holds.
pub open spec fn count_round_starts(traces: Seq<PhragmenTrace>) -> int
    decreases traces.len(),
{
    if traces.len() == 0 {
        0
    } else {
        count_round_starts(traces.drop_last()) + if traces.last() is RoundStart {
            1int
        } else {
            0int
        }
    }
}

/// Pushing one event changes the `RoundStart` count accordingly.
proof fn lemma_count_rs_push(traces: Seq<PhragmenTrace>, t: PhragmenTrace)
    ensures
        count_round_starts(traces.push(t)) == count_round_starts(traces) + if t is RoundStart {
            1int
        } else {
            0int
        },
{
    assert(traces.push(t).drop_last() =~= traces);
    assert(traces.push(t).last() == t);
}

/// Extending a trace by events that are no `RoundStart` keeps the
/// count.
proof fn lemma_count_rs_extend(older: Seq<PhragmenTrace>, newer: Seq<PhragmenTrace>)
    requires
        older.is_prefix_of(newer),
        forall|i: int| older.len() <= i < newer.len() ==> !((#[trigger] newer[i]) is RoundStart),
    ensures
        count_round_starts(newer) == count_round_starts(older),
    decreases newer.len(),
{
    if newer.len() == older.len() {
        assert(newer =~= older);
    } else {
        assert(!(newer.last() is RoundStart));
        assert(older.is_prefix_of(newer.drop_last()));
        lemma_count_rs_extend(older, newer.drop_last());
    }
}

/// Phase A: recompute the base score of every not-yet-elected
/// candidate and emit one `CandidateScoreUpdated` event for each.
pub fn compute_base_scores(cands: &mut Vec<Candidate>, traces: &mut Vec<PhragmenTrace>)
    ensures
        final(cands)@.len() == old(cands)@.len(),
        forall|i: int| 0 <= i < old(cands)@.len()
            ==> final(cands)@[i] == phase_a_candidate(#[trigger] old(cands)@[i]),
        old(traces)@.is_prefix_of(final(traces)@),
        forall|i: int| old(traces)@.len() <= i < final(traces)@.len()
            ==> (#[trigger] final(traces)@[i]) is CandidateScoreUpdated,
{
    let n = cands.len();
    let mut i: usize = 0;
    while i < n
        invariant
            i <= n,
            cands@.len() == n,
            old(cands)@.len() == n,
            forall|j: int| 0 <= j < i
                ==> cands@[j] == phase_a_candidate(#[trigger] old(cands)@[j]),
            forall|j: int| i <= j < n ==> cands@[j] == #[trigger] old(cands)@[j],
            old(traces)@.is_prefix_of(traces@),
            forall|j: int| old(traces)@.len() <= j < traces@.len()
                ==> (#[trigger] traces@[j]) is CandidateScoreUpdated,
        decreases n - i,
    {
        let c = cands[i];
        if !c.elected {
            let new_score = if c.approval_stake == 0 {
                Rational128 { n: u128::MAX, d: u128::MAX }
            } else {
                Rational128 { n: 1, d: c.approval_stake }
            };
            traces.push(
                PhragmenTrace::CandidateScoreUpdated(
                    CandidateScoreUpdate { who: c.who, score: c.score, new_score },
                ),
            );
            cands.set(i, Candidate { score: new_score, ..c });
        }
        i = i + 1;
    }
}

/// One voter's score contribution folded over its edges: each edge to
/// the candidate at arena index `i` adds `load × stake` to `s`.
pub open spec fn augment_edges(
    s: Rational128,
    load: Rational128,
    stake: u64,
    edges: Seq<Edge>,
    i: int,
) -> Rational128
    decreases edges.len(),
{
    if edges.len() == 0 {
        s
    } else {
        let s1 = if edges[0].candidate_index == i {
            s.spec_add(load.spec_mul_u128(stake as u128))
        } else {
            s
        };
        augment_edges(s1, load, stake, edges.skip(1), i)
    }
}

/// The score of the candidate at arena index `i` after every voter's
/// contributions, folded in voter order.
pub open spec fn augmented_score(s: Rational128, voters: Seq<VoterModel>, i: int) -> Rational128
    decreases voters.len(),
{
    if voters.len() == 0 {
        s
    } else {
        let s1 = augment_edges(s, voters[0].load, voters[0].stake, voters[0].edges, i);
        augmented_score(s1, voters.skip(1), i)
    }
}

/// Phase B: every voter adds `load × stake` to the score of each
/// not-yet-elected candidate it has an edge to, emitting one
/// `CandidateScoreUpdatedByVoter` event per contribution.
pub fn augment_scores(
    cands: &mut Vec<Candidate>,
    voters: &Vec<Voter>,
    traces: &mut Vec<PhragmenTrace>,
    sat: &mut bool,
)
    requires
        forall|v: int| 0 <= v < voters@.len() ==> edges_wf(old(cands)@, voters@[v]@),
        !*old(sat) ==> forall|v: int| 0 <= v < voters@.len()
            ==> loads_finite(#[trigger] voters@[v]@),
    ensures
        final(cands)@.len() == old(cands)@.len(),
        forall|i: int| 0 <= i < old(cands)@.len() ==> {
            let c = #[trigger] old(cands)@[i];
            let c2 = final(cands)@[i];
            &&& c.elected ==> c2 == c
            &&& !c.elected ==> c2 == (Candidate {
                score: augmented_score(c.score, models(voters@), i),
                ..c
            })
        },
        old(traces)@.is_prefix_of(final(traces)@),
        forall|i: int| old(traces)@.len() <= i < final(traces)@.len()
            ==> (#[trigger] final(traces)@[i]) is CandidateScoreUpdatedByVoter,
        *old(sat) ==> *final(sat),
        !*final(sat) ==> forall|i: int| 0 <= i < old(cands)@.len()
            && !(#[trigger] old(cands)@[i]).elected
            && !old(cands)@[i].score.spec_is_infinite()
            ==> !final(cands)@[i].score.spec_is_infinite(),
{
    let ghost cands0 = old(cands)@;
    let ghost vms = models(voters@);
    let n = cands.len();
    let mut v: usize = 0;
    proof {
        assert(vms.skip(0) =~= vms);
    }
    while v < voters.len()
        invariant
            v <= voters@.len(),
            vms == models(voters@),
            cands@.len() == n,
            cands0.len() == n,
            cands0 == old(cands)@,
            forall|vi: int| 0 <= vi < voters@.len() ==> edges_wf(cands0, voters@[vi]@),
            forall|i: int| 0 <= i < n ==> {
                let c = #[trigger] cands0[i];
                let c2 = cands@[i];
                &&& c.elected ==> c2 == c
                &&& !c.elected ==> c2 == (Candidate {
                    score: augmented_score(c.score, vms.take(v as int), i),
                    ..c
                })
            },
            old(traces)@.is_prefix_of(traces@),
            forall|j: int| old(traces)@.len() <= j < traces@.len()
                ==> (#[trigger] traces@[j]) is CandidateScoreUpdatedByVoter,
            *old(sat) ==> *sat,
            !*old(sat) ==> forall|vi: int| 0 <= vi < voters@.len()
                ==> loads_finite(#[trigger] voters@[vi]@),
            !*sat ==> forall|i: int| 0 <= i < n && !(#[trigger] cands0[i]).elected
                && !cands0[i].score.spec_is_infinite()
                ==> !cands@[i].score.spec_is_infinite(),
        decreases voters@.len() - v,
    {
        let voter = &voters[v];
        let vload = voter.load;
        let vstake = voter.stake;
        let ghost edges_seq = voter.edges@;
        let ghost cands_enter = cands@;
        let ghost sat_enter = *sat;
        let mut k: usize = 0;
        proof {
            assert(edges_seq.skip(0) =~= edges_seq);
            assert(vms[v as int] == voters@[v as int]@);
        }
        while k < voter.edges.len()
            invariant
                k <= edges_seq.len(),
                voter.edges@ == edges_seq,
                voter.load == vload,
                voter.stake == vstake,
                cands@.len() == n,
                cands_enter.len() == n,
                forall|ki: int| 0 <= ki < edges_seq.len()
                    ==> (#[trigger] edges_seq[ki]).candidate_index < n,
                forall|i: int| 0 <= i < n ==> {
                    let c = #[trigger] cands_enter[i];
                    let c2 = cands@[i];
                    &&& c.elected ==> c2 == c
                    &&& !c.elected ==> c2 == (Candidate {
                        score: augment_edges(
                            c.score,
                            vload,
                            vstake,
                            edges_seq.take(k as int),
                            i,
                        ),
                        ..c
                    })
                },
                forall|i: int| 0 <= i < n ==> (#[trigger] cands@[i]).elected
                    == cands_enter[i].elected,
                old(traces)@.is_prefix_of(traces@),
                forall|j: int| old(traces)@.len() <= j < traces@.len()
                    ==> (#[trigger] traces@[j]) is CandidateScoreUpdatedByVoter,
                *old(sat) ==> *sat,
                sat_enter ==> *sat,
                !*sat ==> !vload.spec_is_infinite(),
                !*sat ==> forall|i: int| 0 <= i < n && !(#[trigger] cands_enter[i]).elected
                    && !cands_enter[i].score.spec_is_infinite()
                    ==> !cands@[i].score.spec_is_infinite(),
            decreases edges_seq.len() - k,
        {
            let e = voter.edges[k];
            let ghost cands_prev = cands@;
            let ghost sat_prev = *sat;
            proof {
                assert(edges_seq.skip(k as int)[0] == edges_seq[k as int]);
                assert(edges_seq.skip(k as int).skip(1) =~= edges_seq.skip(k + 1));
                assert(edges_seq.take(k + 1).drop_last() =~= edges_seq.take(k as int));
                assert(edges_seq.take(k + 1).last() == edges_seq[k as int]);
            }
            let ci = e.candidate_index;
            let c = cands[ci];
            if !c.elected {
                let delta = vload.mul_u128(vstake as u128);
                let new_score = c.score.add(delta);
                if new_score.is_infinite() && !c.score.is_infinite() && !delta.is_infinite() {
                    *sat = true;
                }
                if delta.is_infinite() && !vload.is_infinite() {
                    *sat = true;
                }
                traces.push(
                    PhragmenTrace::CandidateScoreUpdatedByVoter(
                        CandidateScoreUpdateByVoter {
                            voter: voter.who,
                            candidate: c.who,
                            score: c.score,
                            new_score,
                        },
                    ),
                );
                cands.set(ci, Candidate { score: new_score, ..c });
            }
            k = k + 1;
            proof {
                lemma_augment_edges_take_step(
                    cands_enter, cands@, vload, vstake, edges_seq, k as int, n as int,
                );
                if !*sat {
                    assert(!sat_prev);
                    assert forall|i: int| 0 <= i < n && !(#[trigger] cands_enter[i]).elected
                        && !cands_enter[i].score.spec_is_infinite()
                        implies !cands@[i].score.spec_is_infinite() by {
                        assert(!cands_prev[i].score.spec_is_infinite());
                    }
                }
            }
        }
        proof {
            assert(edges_seq.take(edges_seq.len() as int) =~= edges_seq);
            assert(edges_seq.skip(edges_seq.len() as int) =~= Seq::<Edge>::empty());
            assert(vms.skip(v as int)[0] == vms[v as int]);
            assert(vms.skip(v as int).skip(1) =~= vms.skip(v + 1));
            assert(vms.take(v + 1).drop_last() =~= vms.take(v as int));
            assert(vms.take(v + 1).last() == vms[v as int]);
        }
        v = v + 1;
        proof {
            lemma_augmented_take_step(cands0, cands@, vms, v as int, n as int);
            if !*sat {
                assert(!sat_enter);
                assert forall|i: int| 0 <= i < n && !(#[trigger] cands0[i]).elected
                    && !cands0[i].score.spec_is_infinite()
                    implies !cands@[i].score.spec_is_infinite() by {
                    assert(!cands_enter[i].elected);
                    assert(!cands_enter[i].score.spec_is_infinite());
                }
            }
        }
    }
    proof {
        assert(vms.take(vms.len() as int) =~= vms);
    }
}

/// The voter pass changes only approval stakes on the candidates.
pub proof fn lemma_sv_votes_preserves(
    cands: Seq<Candidate>,
    stake: u64,
    votes: Seq<AccountId>,
    edges: Seq<Edge>,
)
    requires
        cands.len() <= usize::MAX,
    ensures
        ({
            let r = sv_votes(cands, stake, votes, edges);
            &&& r.0.len() == cands.len()
            &&& forall|i: int| 0 <= i < cands.len() ==> {
                let c = #[trigger] cands[i];
                let c2 = r.0[i];
                c2.who == c.who && c2.score == c.score && c2.elected == c.elected
                    && c2.round == c.round && c2.backed_stake == c.backed_stake
            }
            &&& r.1.len() >= edges.len()
            &&& forall|k: int| 0 <= k < edges.len() ==> r.1[k] == #[trigger] edges[k]
            &&& forall|k: int| edges.len() <= k < r.1.len() ==> {
                let e = #[trigger] r.1[k];
                e.load == crate::rational::rat_zero() && e.weight == 0
                    && e.candidate_index < cands.len()
                    && cands[e.candidate_index as int].who == e.candidate
            }
        }),
    decreases votes.len(),
{
    if votes.len() > 0 {
        let who = votes[0];
        let i = find_candidate(cands, who);
        if i < 0 {
            lemma_sv_votes_preserves(cands, stake, votes.skip(1), edges);
        } else {
            lemma_find_candidate_char(cands, who);
            let c = cands[i];
            let c2 = Candidate {
                approval_stake: sat_add_u128_int(c.approval_stake as int, stake as int) as u128,
                ..c
            };
            let e = Edge {
                candidate: who,
                candidate_index: i as usize,
                load: crate::rational::rat_zero(),
                weight: 0u128,
            };
            let up = cands.update(i, c2);
            lemma_sv_votes_preserves(up, stake, votes.skip(1), edges.push(e));
            let r = sv_votes(cands, stake, votes, edges);
            assert(r == sv_votes(up, stake, votes.skip(1), edges.push(e)));
            assert forall|ii: int| 0 <= ii < cands.len() implies {
                let ca = #[trigger] cands[ii];
                let cb = r.0[ii];
                cb.who == ca.who && cb.score == ca.score && cb.elected == ca.elected
                    && cb.round == ca.round && cb.backed_stake == ca.backed_stake
            } by {
                assert(up[ii].who == cands[ii].who && up[ii].score == cands[ii].score
                    && up[ii].elected == cands[ii].elected && up[ii].round == cands[ii].round
                    && up[ii].backed_stake == cands[ii].backed_stake);
            }
            assert forall|k: int| 0 <= k < edges.len() implies r.1[k] == #[trigger] edges[k] by {
                assert(edges.push(e)[k] == edges[k]);
                assert(r.1[k] == edges.push(e)[k]);
            }
            assert forall|k: int| edges.len() <= k < r.1.len() implies {
                let ed = #[trigger] r.1[k];
                ed.load == crate::rational::rat_zero() && ed.weight == 0
                    && ed.candidate_index < cands.len()
                    && cands[ed.candidate_index as int].who == ed.candidate
            } by {
                let r2 = sv_votes(up, stake, votes.skip(1), edges.push(e));
                assert(r2.1[k] == r.1[k]);
                if k == edges.len() {
                    assert(r2.1[k] == edges.push(e)[k]);
                    assert(edges.push(e)[k] == e);
                } else {
                    let ed = r2.1[k];
                    assert(ed.load == crate::rational::rat_zero() && ed.weight == 0
                        && ed.candidate_index < up.len()
                        && up[ed.candidate_index as int].who == ed.candidate);
                    assert(up[ed.candidate_index as int].who
                        == cands[ed.candidate_index as int].who);
                }
            }
        }
    }
}

/// The whole voter pass preserves candidate identity and election
/// state, and produces voters with zero loads and valid, virgin edges.
pub proof fn lemma_sv_voters_preserves(
    cands: Seq<Candidate>,
    vs: Seq<(AccountId, u64, Vec<AccountId>)>,
    out: Seq<VoterModel>,
)
    requires
        cands.len() <= usize::MAX,
        forall|k: int| 0 <= k < out.len() ==> {
            let vm = #[trigger] out[k];
            vm.load == crate::rational::rat_zero() && (forall|e: int|
                0 <= e < vm.edges.len() ==> {
                    let ed = #[trigger] vm.edges[e];
                    ed.load == crate::rational::rat_zero() && ed.weight == 0
                        && ed.candidate_index < cands.len()
                        && cands[ed.candidate_index as int].who == ed.candidate
                })
        },
    ensures
        ({
            let r = sv_voters(cands, vs, out);
            &&& r.0.len() == cands.len()
            &&& forall|i: int| 0 <= i < cands.len() ==> {
                let c = #[trigger] cands[i];
                let c2 = r.0[i];
                c2.who == c.who && c2.score == c.score && c2.elected == c.elected
                    && c2.round == c.round && c2.backed_stake == c.backed_stake
            }
            &&& r.1.len() == out.len() + vs.len()
            &&& forall|k: int| 0 <= k < out.len() ==> r.1[k] == #[trigger] out[k]
            &&& forall|k: int| out.len() <= k < r.1.len() ==> {
                let vm = #[trigger] r.1[k];
                vm.who == vs[k - out.len()].0 && vm.stake == vs[k - out.len()].1
                    && vm.load == crate::rational::rat_zero() && (forall|e: int|
                    0 <= e < vm.edges.len() ==> {
                        let ed = #[trigger] vm.edges[e];
                        ed.load == crate::rational::rat_zero() && ed.weight == 0
                            && ed.candidate_index < cands.len()
                            && cands[ed.candidate_index as int].who == ed.candidate
                    })
            }
        }),
    decreases vs.len(),
{
    if vs.len() > 0 {
        let step = sv_votes(cands, vs[0].1, vs[0].2@, Seq::empty());
        lemma_sv_votes_preserves(cands, vs[0].1, vs[0].2@, Seq::empty());
        let vm = VoterModel {
            who: vs[0].0,
            stake: vs[0].1,
            load: crate::rational::rat_zero(),
            edges: step.1,
        };
        assert forall|k: int| 0 <= k < out.push(vm).len() implies {
            let vmk = #[trigger] out.push(vm)[k];
            vmk.load == crate::rational::rat_zero() && (forall|e: int|
                0 <= e < vmk.edges.len() ==> {
                    let ed = #[trigger] vmk.edges[e];
                    ed.load == crate::rational::rat_zero() && ed.weight == 0
                        && ed.candidate_index < step.0.len()
                        && step.0[ed.candidate_index as int].who == ed.candidate
                })
        } by {
            if k < out.len() {
                assert(out.push(vm)[k] == out[k]);
            } else {
                assert(out.push(vm)[k] == vm);
            }
        }
        lemma_sv_voters_preserves(step.0, vs.skip(1), out.push(vm));
        let r = sv_voters(cands, vs, out);
        assert(r == sv_voters(step.0, vs.skip(1), out.push(vm)));
        assert forall|i: int| 0 <= i < cands.len() implies {
            let ca = #[trigger] cands[i];
            let cb = r.0[i];
            cb.who == ca.who && cb.score == ca.score && cb.elected == ca.elected
                && cb.round == ca.round && cb.backed_stake == ca.backed_stake
        } by {
            assert(step.0[i].who == cands[i].who && step.0[i].score == cands[i].score
                && step.0[i].elected == cands[i].elected && step.0[i].round == cands[i].round
                && step.0[i].backed_stake == cands[i].backed_stake);
        }
        assert forall|k: int| 0 <= k < out.len() implies r.1[k] == #[trigger] out[k] by {
            assert(r.1[k] == out.push(vm)[k]);
            assert(out.push(vm)[k] == out[k]);
        }
        assert forall|k: int| out.len() <= k < r.1.len() implies {
            let vmk = #[trigger] r.1[k];
            vmk.who == vs[k - out.len()].0 && vmk.stake == vs[k - out.len()].1
                && vmk.load == crate::rational::rat_zero() && (forall|e: int|
                0 <= e < vmk.edges.len() ==> {
                    let ed = #[trigger] vmk.edges[e];
                    ed.load == crate::rational::rat_zero() && ed.weight == 0
                        && ed.candidate_index < cands.len()
                        && cands[ed.candidate_index as int].who == ed.candidate
                })
        } by {
            if k == out.len() {
                assert(r.1[k] == out.push(vm)[k]);
                assert(out.push(vm)[k] == vm);
                assert forall|e: int| 0 <= e < vm.edges.len() implies {
                    let ed = #[trigger] vm.edges[e];
                    ed.load == crate::rational::rat_zero() && ed.weight == 0
                        && ed.candidate_index < cands.len()
                        && cands[ed.candidate_index as int].who == ed.candidate
                } by {
                }
            } else {
                let vmk = r.1[k];
                assert(vmk.who == vs.skip(1)[k - out.push(vm).len()].0);
                assert(vs.skip(1)[k - out.len() - 1] == vs[k - out.len()]);
                assert forall|e: int| 0 <= e < vmk.edges.len() implies {
                    let ed = #[trigger] vmk.edges[e];
                    ed.load == crate::rational::rat_zero() && ed.weight == 0
                        && ed.candidate_index < cands.len()
                        && cands[ed.candidate_index as int].who == ed.candidate
                } by {
                    let ed = vmk.edges[e];
                    assert(step.0[ed.candidate_index as int].who
                        == cands[ed.candidate_index as int].who);
                }
            }
        }
    }
}

/// How many candidates are elected.
pub open spec fn count_elected(cands: Seq<Candidate>) -> int
    decreases cands.len(),
{
    if cands.len() == 0 {
        0
    } else {
        count_elected(cands.drop_last()) + if cands.last().elected {
            1int
        } else {
            0int
        }
    }
}

/// How many candidates have positive approval stake.
pub open spec fn count_positive(cands: Seq<Candidate>) -> int
    decreases cands.len(),
{
    if cands.len() == 0 {
        0
    } else {
        count_positive(cands.drop_last()) + if cands.last().approval_stake > 0 {
            1int
        } else {
            0int
        }
    }
}

/// Counting facts: both counts are bounded by the length; when every
/// elected candidate has positive stake the elected count is bounded by
/// the positive count, with equality when every positive candidate is
/// elected.
pub proof fn lemma_counts(cands: Seq<Candidate>)
    ensures
        0 <= count_elected(cands) <= cands.len(),
        0 <= count_positive(cands) <= cands.len(),
        (forall|i: int| 0 <= i < cands.len() && (#[trigger] cands[i]).elected
            ==> cands[i].approval_stake > 0) ==> count_elected(cands) <= count_positive(cands),
        (forall|i: int| 0 <= i < cands.len()
            ==> ((#[trigger] cands[i]).elected <==> cands[i].approval_stake > 0))
            ==> count_elected(cands) == count_positive(cands),
        (forall|i: int| 0 <= i < cands.len() ==> !(#[trigger] cands[i]).elected)
            ==> count_elected(cands) == 0,
    decreases cands.len(),
{
    if cands.len() > 0 {
        lemma_counts(cands.drop_last());
        assert(forall|i: int| 0 <= i < cands.drop_last().len()
            ==> #[trigger] cands.drop_last()[i] == cands[i]);
        assert(cands.last() == cands[cands.len() - 1]);
    }
}

/// Electing one not-yet-elected candidate raises the elected count by
/// one and keeps the positive count.
pub proof fn lemma_counts_elect(c1: Seq<Candidate>, c2: Seq<Candidate>, w: int)
    requires
        c1.len() == c2.len(),
        0 <= w < c1.len(),
        !c1[w].elected,
        c2[w].elected,
        c2[w].approval_stake == c1[w].approval_stake,
        forall|i: int| 0 <= i < c1.len() && i != w ==> ((#[trigger] c2[i]).elected
            == c1[i].elected && c2[i].approval_stake == c1[i].approval_stake),
    ensures
        count_elected(c2) == count_elected(c1) + 1,
        count_positive(c2) == count_positive(c1),
    decreases c1.len(),
{
    if c1.len() > 0 {
        assert(forall|i: int| 0 <= i < c1.drop_last().len()
            ==> #[trigger] c1.drop_last()[i] == c1[i]);
        assert(forall|i: int| 0 <= i < c2.drop_last().len()
            ==> #[trigger] c2.drop_last()[i] == c2[i]);
        if w == c1.len() - 1 {
            lemma_counts_same(c1.drop_last(), c2.drop_last());
        } else {
            lemma_counts_elect(c1.drop_last(), c2.drop_last(), w);
        }
    }
}

/// Pointwise equal election state and approvals give equal counts.
pub proof fn lemma_counts_same(c1: Seq<Candidate>, c2: Seq<Candidate>)
    requires
        c1.len() == c2.len(),
        forall|i: int| 0 <= i < c1.len() ==> ((#[trigger] c2[i]).elected == c1[i].elected
            && c2[i].approval_stake == c1[i].approval_stake),
    ensures
        count_elected(c2) == count_elected(c1),
        count_positive(c2) == count_positive(c1),
    decreases c1.len(),
{
    if c1.len() > 0 {
        assert(forall|i: int| 0 <= i < c1.drop_last().len()
            ==> #[trigger] c1.drop_last()[i] == c1[i]);
        assert(forall|i: int| 0 <= i < c2.drop_last().len()
            ==> #[trigger] c2.drop_last()[i] == c2[i]);
        lemma_counts_same(c1.drop_last(), c2.drop_last());
    }
}

/// A candidate that can still be elected this round: not yet elected,
/// positive approval stake, finite score.
pub open spec fn electable(c: Candidate) -> bool {
    !c.elected && c.approval_stake > 0 && !c.score.spec_is_infinite()
}

/// The round's strict preference order: the smaller score wins, and on
/// equal scores the smaller account id wins.
pub open spec fn wins_over(a: Candidate, b: Candidate) -> bool {
    a.score.spec_cmp(b.score) < 0 || (a.score.spec_cmp(b.score) == 0 && crate::account::bytes_lt(
        a.who@,
        b.who@,
    ))
}

/// The preference order is transitive over well-formed scores.
pub proof fn lemma_wins_over_trans(a: Candidate, b: Candidate, c: Candidate)
    requires
        a.score.wf(),
        b.score.wf(),
        c.score.wf(),
        wins_over(a, b),
        wins_over(b, c),
    ensures
        wins_over(a, c),
{
    crate::rational::lemma_cmp_trans(a.score, b.score, c.score);
    if a.score.spec_cmp(b.score) == 0 && b.score.spec_cmp(c.score) == 0 {
        if crate::account::bytes_lt(a.who@, b.who@) && crate::account::bytes_lt(b.who@, c.who@) {
            crate::account::lemma_bytes_lt_trans(a.who@, b.who@, c.who@);
        }
    }
}

/// Phase C selection: the smallest-scored electable candidate, ties
/// broken by the smaller account id.  Returns `None` exactly when no
/// candidate is electable.
pub fn find_best(cands: &Vec<Candidate>) -> (r: Option<usize>)
    requires
        forall|i: int, j: int| #![trigger cands@[i], cands@[j]] 0 <= i < j < cands@.len()
            ==> cands@[i].who != cands@[j].who,
        forall|i: int| 0 <= i < cands@.len() ==> (#[trigger] cands@[i]).score.wf(),
    ensures
        match r {
            None => forall|i: int| 0 <= i < cands@.len() ==> !electable(#[trigger] cands@[i]),
            Some(w) => w < cands@.len() && electable(cands@[w as int]) && (forall|j: int|
                0 <= j < cands@.len() && j != w && electable(#[trigger] cands@[j])
                    ==> wins_over(cands@[w as int], cands@[j])),
        },
{
    let mut best: Option<usize> = None;
    let mut i: usize = 0;
    while i < cands.len()
        invariant
            i <= cands@.len(),
            forall|a: int, b: int| #![trigger cands@[a], cands@[b]] 0 <= a < b < cands@.len()
                ==> cands@[a].who != cands@[b].who,
            forall|a: int| 0 <= a < cands@.len() ==> (#[trigger] cands@[a]).score.wf(),
            match best {
                None => forall|j: int| 0 <= j < i ==> !electable(#[trigger] cands@[j]),
                Some(b) => b < i && electable(cands@[b as int]) && (forall|j: int|
                    0 <= j < i && j != b && electable(#[trigger] cands@[j])
                        ==> wins_over(cands@[b as int], cands@[j])),
            },
        decreases cands@.len() - i,
    {
        let c = &cands[i];
        if !c.elected && c.approval_stake > 0 && !c.score.is_infinite() {
            match best {
                None => {
                    best = Some(i);
                }
                Some(b) => {
                    let bc = &cands[b];
                    let cmp = c.score.cmp_rational(&bc.score);
                    let take_new = cmp < 0 || (cmp == 0 && c.who.lt_account(&bc.who));
                    proof {
                        crate::rational::lemma_cmp_antisym(c.score, bc.score);
                        if !take_new && cmp == 0 {
                            broadcast use vstd::array::group_array_axioms;

                            if c.who@ == bc.who@ {
                                assert(c.who.0 =~= bc.who.0);
                                assert(false);
                            }
                            if !crate::account::bytes_lt(bc.who@, c.who@) {
                                crate::account::lemma_bytes_lt_connected(c.who@, bc.who@);
                                assert(false);
                            }
                        }
                    }
                    if take_new {
                        proof {
                            assert forall|j: int|
                                0 <= j < i + 1 && j != i && electable(#[trigger] cands@[j])
                                implies wins_over(cands@[i as int], cands@[j]) by {
                                if j != b {
                                    lemma_wins_over_trans(
                                        cands@[i as int],
                                        cands@[b as int],
                                        cands@[j],
                                    );
                                }
                            }
                        }
                        best = Some(i);
                    }
                }
            }
        }
        i = i + 1;
    }
    best
}

/// The preference order is asymmetric: two candidates cannot each win
/// over the other.
proof fn lemma_wins_over_asym(a: Candidate, b: Candidate)
    requires
        wins_over(a, b),
    ensures
        !wins_over(b, a),
{
    crate::rational::lemma_cmp_antisym(a.score, b.score);
    if a.score.spec_cmp(b.score) == 0 {
        if crate::account::bytes_lt(b.who@, a.who@) {
            crate::account::lemma_bytes_lt_trans(a.who@, b.who@, a.who@);
            crate::account::lemma_bytes_lt_irrefl(a.who@);
        }
    }
}

/// Permuting the candidates does not change the round's winner: any
/// two candidate lists holding the same records elect the same
/// candidate, because the winner is the unique minimum of the strict
/// preference order (score, then account id) over the electable
/// records.
pub proof fn lemma_selection_permutation_invariant(
    c1: Seq<Candidate>,
    c2: Seq<Candidate>,
    w1: int,
    w2: int,
)
    requires
        c1.to_multiset() == c2.to_multiset(),
        forall|i: int| 0 <= i < c1.len() ==> (#[trigger] c1[i]).score.wf(),
        forall|i: int| 0 <= i < c2.len() ==> (#[trigger] c2[i]).score.wf(),
        0 <= w1 < c1.len(),
        0 <= w2 < c2.len(),
        electable(c1[w1]),
        electable(c2[w2]),
        forall|j: int| 0 <= j < c1.len() && j != w1 && electable(#[trigger] c1[j])
            ==> wins_over(c1[w1], c1[j]),
        forall|j: int| 0 <= j < c2.len() && j != w2 && electable(#[trigger] c2[j])
            ==> wins_over(c2[w2], c2[j]),
    ensures
        c1[w1] == c2[w2],
{
    broadcast use vstd::seq_lib::group_seq_properties;

    if c1[w1] != c2[w2] {
        // each winner also stands somewhere in the other list
        assert(c1.contains(c1[w1]));
        assert(c1.to_multiset().count(c1[w1]) > 0);
        assert(c2.contains(c1[w1]));
        let k2 = choose|k: int| 0 <= k < c2.len() && c2[k] == c1[w1];
        assert(c2.contains(c2[w2]));
        assert(c2.to_multiset().count(c2[w2]) > 0);
        assert(c1.contains(c2[w2]));
        let k1 = choose|k: int| 0 <= k < c1.len() && c1[k] == c2[w2];
        assert(k1 != w1);
        assert(k2 != w2);
        assert(wins_over(c1[w1], c1[k1]));
        assert(wins_over(c2[w2], c2[k2]));
        lemma_wins_over_asym(c1[w1], c2[w2]);
    }
}

/// The index of the first edge pointing at arena index `w`, or `-1`.
pub open spec fn find_edge(edges: Seq<Edge>, w: int) -> int
    decreases edges.len(),
{
    if edges.len() == 0 {
        -1
    } else if edges[0].candidate_index == w {
        0
    } else {
        let r = find_edge(edges.skip(1), w);
        if r < 0 {
            -1
        } else {
            r + 1
        }
    }
}

/// What `find_edge` returns: `-1` exactly when no edge points at `w`,
/// else the first index of one that does.
pub proof fn lemma_find_edge_char(edges: Seq<Edge>, w: int)
    ensures
        find_edge(edges, w) == -1 <==> (forall|k: int|
            0 <= k < edges.len() ==> (#[trigger] edges[k]).candidate_index != w),
        find_edge(edges, w) >= 0 ==> {
            let r = find_edge(edges, w);
            &&& r < edges.len()
            &&& edges[r].candidate_index == w
            &&& forall|k: int| 0 <= k < r ==> (#[trigger] edges[k]).candidate_index != w
        },
    decreases edges.len(),
{
    if edges.len() > 0 && edges[0].candidate_index != w {
        lemma_find_edge_char(edges.skip(1), w);
        let r1 = find_edge(edges.skip(1), w);
        if r1 == -1 {
            assert forall|k: int| 0 <= k < edges.len()
                implies (#[trigger] edges[k]).candidate_index != w by {
                if k > 0 {
                    assert(edges.skip(1)[k - 1] == edges[k]);
                }
            }
        } else {
            assert(edges.skip(1)[r1] == edges[r1 + 1]);
            assert forall|k: int| 0 <= k < r1 + 1
                implies (#[trigger] edges[k]).candidate_index != w by {
                if k > 0 {
                    assert(edges.skip(1)[k - 1] == edges[k]);
                }
            }
        }
    }
}

/// Phase D applied to one voter: if the voter has an edge to the
/// winner, that edge's load becomes `winner.score − load` (clamped at
/// zero) and the voter's load grows by the same amount.
pub open spec fn distribute_voter(wscore: Rational128, w: int, vm: VoterModel) -> VoterModel {
    let k = find_edge(vm.edges, w);
    if k < 0 {
        vm
    } else {
        let new_el = wscore.spec_sub_or_zero(vm.load);
        VoterModel {
            load: vm.load.spec_add(new_el),
            edges: vm.edges.update(k, Edge { load: new_el, ..vm.edges[k] }),
            ..vm
        }
    }
}

/// The state of one election round, recorded at its selection point
/// (after the scoring phases, before the winner is marked).
pub ghost struct RoundState {
    /// The candidate records with this round's recomputed scores.
    pub cands: Seq<Candidate>,
    /// The voters entering this round; their loads drove phase B.
    pub voters: Seq<VoterModel>,
    /// The arena index elected this round, or `-1` when no candidate
    /// was electable and the election stopped.
    pub winner: int,
}

/// Phases A and B as one step: every not-yet-elected candidate's score
/// becomes its base score augmented by every voter's contribution, in
/// voter order; elected candidates keep their records.
pub open spec fn scores_recomputed(cs: Seq<Candidate>, vms: Seq<VoterModel>) -> Seq<Candidate> {
    Seq::new(
        cs.len(),
        |j: int|
            if cs[j].elected {
                cs[j]
            } else {
                Candidate { score: augmented_score(base_score(cs[j]), vms, j), ..cs[j] }
            },
    )
}

/// Phase C's effect on the records: the winner becomes elected in
/// round `r`.
pub open spec fn elect_candidate(cs: Seq<Candidate>, w: int, r: int) -> Seq<Candidate> {
    cs.update(w, Candidate { elected: true, round: r as usize, ..cs[w] })
}

/// Phase D over every voter.
pub open spec fn distribute_all(
    wscore: Rational128,
    w: int,
    vms: Seq<VoterModel>,
) -> Seq<VoterModel> {
    vms.map_values(|vm: VoterModel| distribute_voter(wscore, w, vm))
}

/// The (candidates, voters) entering round `k+1` (`k` 0-based): the
/// setup state for the first round, else the previous round's state
/// after electing its winner and redistributing the loads.
pub open spec fn round_input(
    setup_c: Seq<Candidate>,
    setup_v: Seq<VoterModel>,
    states: Seq<RoundState>,
    k: int,
) -> (Seq<Candidate>, Seq<VoterModel>) {
    if k <= 0 {
        (setup_c, setup_v)
    } else {
        let prev = states[k - 1];
        (
            elect_candidate(prev.cands, prev.winner, k),
            distribute_all(prev.cands[prev.winner].score, prev.winner, prev.voters),
        )
    }
}

/// The election rule, round by round: each recorded state carries the
/// scores recomputed from its input state (anchored at the setup state
/// and chained through electing and load redistribution), the winner
/// of every round is the smallest-scored electable candidate with ties
/// broken by the smaller account id, and the election stops early only
/// when no candidate is electable.
pub open spec fn chain_entry_ok(
    setup_c: Seq<Candidate>,
    setup_v: Seq<VoterModel>,
    states: Seq<RoundState>,
    k: int,
) -> bool {
    let st = states[k];
    let input = round_input(setup_c, setup_v, states, k);
    &&& st.voters == input.1
    &&& st.cands == scores_recomputed(input.0, input.1)
    &&& (k < states.len() - 1 ==> st.winner >= 0)
    &&& (st.winner >= 0 ==> {
        &&& st.winner < st.cands.len()
        &&& electable(st.cands[st.winner])
        &&& forall|j: int|
            0 <= j < st.cands.len() && j != st.winner && electable(#[trigger] st.cands[j])
                ==> wins_over(st.cands[st.winner], st.cands[j])
    })
    &&& (st.winner < 0 ==> forall|j: int|
        0 <= j < st.cands.len() ==> !electable(#[trigger] st.cands[j]))
}

pub open spec fn chain_ok(
    setup_c: Seq<Candidate>,
    setup_v: Seq<VoterModel>,
    states: Seq<RoundState>,
) -> bool {
    &&& states.len() <= usize::MAX
    &&& forall|k: int| 0 <= k < states.len()
        ==> #[trigger] chain_entry_ok(setup_c, setup_v, states, k)
}

/// Appending one well-formed round extends the chain.
proof fn lemma_chain_push(
    setup_c: Seq<Candidate>,
    setup_v: Seq<VoterModel>,
    prior: Seq<RoundState>,
    st: RoundState,
    in_c: Seq<Candidate>,
    in_v: Seq<VoterModel>,
)
    requires
        chain_ok(setup_c, setup_v, prior),
        prior.len() + 1 <= usize::MAX,
        forall|k: int| 0 <= k < prior.len() ==> (#[trigger] prior[k]).winner >= 0,
        in_c == round_input(setup_c, setup_v, prior, prior.len() as int).0,
        in_v == round_input(setup_c, setup_v, prior, prior.len() as int).1,
        st.voters == in_v,
        st.cands == scores_recomputed(in_c, in_v),
        st.winner >= 0 ==> {
            &&& st.winner < st.cands.len()
            &&& electable(st.cands[st.winner])
            &&& forall|j: int|
                0 <= j < st.cands.len() && j != st.winner && electable(#[trigger] st.cands[j])
                    ==> wins_over(st.cands[st.winner], st.cands[j])
        },
        st.winner < 0 ==> forall|j: int|
            0 <= j < st.cands.len() ==> !electable(#[trigger] st.cands[j]),
    ensures
        chain_ok(setup_c, setup_v, prior.push(st)),
{
    let states2 = prior.push(st);
    assert forall|k: int| 0 <= k < states2.len()
        implies #[trigger] chain_entry_ok(setup_c, setup_v, states2, k) by {
        if k >= 1 {
            assert(states2[k - 1] == prior[k - 1]);
        }
        assert(round_input(setup_c, setup_v, states2, k) == round_input(
            setup_c,
            setup_v,
            prior,
            k,
        ));
        if k < prior.len() {
            assert(states2[k] == prior[k]);
            assert(chain_entry_ok(setup_c, setup_v, prior, k));
        } else {
            assert(states2[k] == st);
        }
    }
}

/// Phase D: redistribute loads over every voter that approves the
/// winner, emitting `VoterEdgeUpdated` and `VoterLoadUpdated` events.
pub fn distribute_loads(
    winner: Candidate,
    w: usize,
    voters: &mut Vec<Voter>,
    traces: &mut Vec<PhragmenTrace>,
    sat: &mut bool,
)
    requires
        !winner.score.spec_is_infinite(),
    ensures
        final(voters)@.len() == old(voters)@.len(),
        forall|v: int| 0 <= v < old(voters)@.len() ==> final(voters)@[v]@ == distribute_voter(
            winner.score,
            w as int,
            (#[trigger] old(voters)@[v])@,
        ),
        old(traces)@.is_prefix_of(final(traces)@),
        forall|i: int| old(traces)@.len() <= i < final(traces)@.len() ==> {
            let t = #[trigger] final(traces)@[i];
            t is VoterEdgeUpdated || t is VoterLoadUpdated
        },
        *old(sat) ==> *final(sat),
        !*final(sat) ==> forall|v: int| 0 <= v < old(voters)@.len()
            && loads_finite((#[trigger] old(voters)@[v])@)
            ==> loads_finite(final(voters)@[v]@),
{
    let n = voters.len();
    let mut v: usize = 0;
    while v < n
        invariant
            v <= n,
            voters@.len() == n,
            old(voters)@.len() == n,
            forall|vi: int| 0 <= vi < v ==> voters@[vi]@ == distribute_voter(
                winner.score,
                w as int,
                (#[trigger] old(voters)@[vi])@,
            ),
            forall|vi: int| v <= vi < n ==> (#[trigger] voters@[vi])@ == old(voters)@[vi]@,
            old(traces)@.is_prefix_of(traces@),
            forall|i: int| old(traces)@.len() <= i < traces@.len()
                ==> ((#[trigger] traces@[i]) is VoterEdgeUpdated
                    || traces@[i] is VoterLoadUpdated),
            *old(sat) ==> *sat,
            !winner.score.spec_is_infinite(),
            !*sat ==> forall|vi: int| 0 <= vi < v
                && loads_finite((#[trigger] old(voters)@[vi])@)
                ==> loads_finite(voters@[vi]@),
        decreases n - v,
    {
        let ghost vm = voters@[v as int]@;
        proof {
            lemma_find_edge_char(vm.edges, w as int);
        }
        // find the voter's edge to the winner, if any
        let mut kk: usize = 0;
        let elen = voters[v].edges.len();
        let mut found: Option<usize> = None;
        while kk < elen
            invariant
                kk <= elen,
                v < n,
                voters@.len() == n,
                voters@[v as int]@ == vm,
                elen == vm.edges.len(),
                match found {
                    None => forall|k: int| 0 <= k < kk
                        ==> (#[trigger] vm.edges[k]).candidate_index != w as int,
                    Some(f) => f < elen && find_edge(vm.edges, w as int) == f,
                },
            decreases elen - kk,
        {
            let is_match = voters[v].edges[kk].candidate_index == w;
            proof {
                assert(vm.edges[kk as int] == voters@[v as int]@.edges[kk as int]);
            }
            if found.is_none() && is_match {
                proof {
                    lemma_find_edge_char(vm.edges, w as int);
                    assert(vm.edges[kk as int].candidate_index == w as int);
                    let r = find_edge(vm.edges, w as int);
                    assert(r >= 0);
                    if r < kk {
                        assert(vm.edges[r].candidate_index == w as int);
                        assert(false);
                    }
                    if r > kk {
                        assert(vm.edges[kk as int].candidate_index != w as int);
                        assert(false);
                    }
                }
                found = Some(kk);
            }
            kk = kk + 1;
        }
        proof {
            if found is None {
                lemma_find_edge_char(vm.edges, w as int);
            }
        }
        match found {
            Some(f) => {
                let voter_who = voters[v].who;
                let voter_load = voters[v].load;
                let old_edge = voters[v].edges[f];
                let new_el = winner.score.sub_or_zero(voter_load);
                if new_el.is_infinite() && !voter_load.is_infinite() {
                    *sat = true;
                }
                let new_load = voter_load.add(new_el);
                if new_load.is_infinite() && !voter_load.is_infinite() && !new_el.is_infinite() {
                    *sat = true;
                }
                traces.push(
                    PhragmenTrace::VoterEdgeUpdated(
                        EdgeLoadUpdate {
                            voter: voter_who,
                            candidate: winner.who,
                            load: old_edge.load,
                            new_load: new_el,
                        },
                    ),
                );
                traces.push(
                    PhragmenTrace::VoterLoadUpdated(
                        LoadUpdate { who: voter_who, load: voter_load, new_load },
                    ),
                );
                let mut new_edges = copy_edges(&voters[v].edges);
                new_edges.set(f, Edge { load: new_el, ..old_edge });
                let stake = voters[v].stake;
                voters.set(
                    v,
                    Voter { who: voter_who, stake, load: new_load, edges: new_edges },
                );
                proof {
                    assert(voters@[v as int]@ == distribute_voter(winner.score, w as int, vm));
                }
            }
            None => {
                proof {
                    assert(find_edge(vm.edges, w as int) == -1);
                }
            }
        }
        v = v + 1;
    }
}

/// The weight a voter's stake puts on one elected edge:
/// `min(stake, ⌊stake·edge_load / voter_load⌋)` as exact rational
/// arithmetic, and zero when the voter's load is zero.
pub open spec fn spec_edge_weight(stake: u64, el: Rational128, load: Rational128) -> int {
    if load.n == 0 {
        0
    } else {
        let q = (stake * el.n * load.d) / (el.d * load.n);
        if q > stake {
            stake as int
        } else {
            q
        }
    }
}

/// Computes `spec_edge_weight` exactly, comparing 384-bit products.
fn edge_weight(stake: u64, el: Rational128, load: Rational128) -> (r: u64)
    requires
        el.wf(),
        load.wf(),
    ensures
        r == spec_edge_weight(stake, el, load),
{
    if load.is_zero() {
        return 0;
    }
    let q256 = crate::rational::mul_wide(el.d, load.n);
    let en_ld = crate::rational::mul_wide(el.n, load.d);
    let target = crate::rational::mul_u256_u64(en_ld, stake);
    proof {
        assert((el.n * load.d) * stake == stake * el.n * load.d) by (nonlinear_arith);
        assert(el.d * load.n >= 1) by (nonlinear_arith)
            requires el.d >= 1, load.n >= 1;
        assert(stake * el.n * load.d >= 0) by (nonlinear_arith);
    }
    let mut lo: u128 = 0;
    let mut hi: u128 = stake as u128 + 1;
    while lo + 1 < hi
        invariant
            lo < hi <= stake as u128 + 1,
            el.wf(),
            load.wf(),
            load.n >= 1,
            crate::rational::triple_val(target) == stake * el.n * load.d,
            crate::rational::wide_val(q256) == el.d * load.n,
            el.d * load.n >= 1,
            lo * (el.d * load.n) <= stake * el.n * load.d,
            hi <= stake ==> hi * (el.d * load.n) > stake * el.n * load.d,
        decreases hi - lo,
    {
        let mid = lo + (hi - lo) / 2;
        let scaled = crate::rational::mul_u256_u64(q256, mid as u64);
        proof {
            assert((el.d * load.n) * mid == mid * (el.d * load.n)) by (nonlinear_arith);
        }
        if crate::rational::triple_le(scaled, target) {
            lo = mid;
        } else {
            hi = mid;
        }
    }
    proof {
        crate::rational::lemma_div_bracket(
            lo as int,
            hi as int,
            stake * el.n * load.d,
            el.d * load.n,
            stake as int,
        );
    }
    lo as u64
}

/// The sum of the weights on edges pointing at elected candidates.
pub open spec fn sum_elected_weights(cands: Seq<Candidate>, edges: Seq<Edge>) -> int
    decreases edges.len(),
{
    if edges.len() == 0 {
        0
    } else {
        let p = sum_elected_weights(cands, edges.drop_last());
        let e = edges.last();
        if e.candidate_index < cands.len() && cands[e.candidate_index as int].elected {
            p + e.weight
        } else {
            p
        }
    }
}

/// Whether any edge points at an elected candidate.
pub open spec fn has_elected_edge(cands: Seq<Candidate>, edges: Seq<Edge>) -> bool {
    exists|k: int|
        0 <= k < edges.len() && (#[trigger] edges[k]).candidate_index < cands.len()
            && cands[edges[k].candidate_index as int].elected
}

/// The floor of a quotient multiplied back never exceeds the dividend.
proof fn lemma_floor_mul(t: int, q: int)
    requires
        t >= 0,
        q >= 1,
    ensures
        (t / q) * q <= t,
        t / q >= 0,
{
    vstd::arithmetic::div_mod::lemma_fundamental_div_mod(t, q);
    vstd::arithmetic::div_mod::lemma_mod_division_less_than_divisor(t, q);
    vstd::arithmetic::div_mod::lemma_div_pos_is_pos(t, q);
    assert(q * (t / q) == (t / q) * q) by (nonlinear_arith);
}

/// The core dust-free bound: weights computed by `spec_edge_weight`
/// from one voter load sum to at most `stake · (elected-load sum) /
/// load`, expressed without division.
#[verifier::rlimit(50)]
proof fn lemma_weight_sum_le(
    cands: Seq<Candidate>,
    edges: Seq<Edge>,
    stake: u64,
    load: Rational128,
)
    requires
        load.wf(),
        load.n >= 1,
        forall|k: int| 0 <= k < edges.len() ==> (#[trigger] edges[k]).load.wf(),
        forall|k: int| 0 <= k < edges.len() && (#[trigger] edges[k]).candidate_index
            < cands.len() && cands[edges[k].candidate_index as int].elected
            ==> edges[k].weight == spec_edge_weight(stake, edges[k].load, load),
    ensures
        sum_elected_weights(cands, edges) >= 0,
        sum_elected_weights(cands, edges) * (sum_elected_loads(cands, edges).1 * load.n)
            <= stake * (sum_elected_loads(cands, edges).0 * load.d),
    decreases edges.len(),
{
    lemma_sum_elected_loads_pos(cands, edges);
    if edges.len() == 0 {
    } else {
        assert(forall|k: int| 0 <= k < edges.drop_last().len()
            ==> edges.drop_last()[k] == edges[k]);
        lemma_weight_sum_le(cands, edges.drop_last(), stake, load);
        lemma_sum_elected_loads_pos(cands, edges.drop_last());
        let p = sum_elected_loads(cands, edges.drop_last());
        let pw = sum_elected_weights(cands, edges.drop_last());
        let e = edges.last();
        let s = sum_elected_loads(cands, edges);
        let sw = sum_elected_weights(cands, edges);
        assert(e == edges[edges.len() - 1]);
        if e.candidate_index < cands.len() && cands[e.candidate_index as int].elected {
            let w = e.weight as int;
            let en = e.load.n as int;
            let ed = e.load.d as int;
            let ln = load.n as int;
            let ld = load.d as int;
            let st = stake as int;
            // the per-edge floor bound: w·(ed·ln) <= stake·(en·ld)
            assert(w * (ed * ln) <= st * (en * ld)) by {
                assert(w == spec_edge_weight(stake, e.load, load));
                let t = st * en * ld;
                let q = ed * ln;
                assert(q >= 1) by (nonlinear_arith)
                    requires q == ed * ln, ed >= 1, ln >= 1;
                assert(t >= 0) by (nonlinear_arith)
                    requires t == st * en * ld, st >= 0, en >= 0, ld >= 1;
                lemma_floor_mul(t, q);
                assert(w <= t / q);
                assert(w >= 0);
                assert(w * q <= (t / q) * q) by (nonlinear_arith)
                    requires w <= t / q, q >= 1, w >= 0;
                assert(st * (en * ld) == t) by (nonlinear_arith)
                    requires t == st * en * ld;
            }
            assert(sw == pw + w);
            assert(s.0 == p.0 * ed + en * p.1);
            assert(s.1 == p.1 * ed);
            assert(sw * (s.1 * ln) == pw * (p.1 * ln) * ed + w * (ed * ln) * p.1)
                by (nonlinear_arith)
                requires sw == pw + w, s.1 == p.1 * ed;
            assert(pw * (p.1 * ln) * ed <= st * (p.0 * ld) * ed) by (nonlinear_arith)
                requires pw * (p.1 * ln) <= st * (p.0 * ld), ed >= 1;
            assert(w * (ed * ln) * p.1 <= st * (en * ld) * p.1) by (nonlinear_arith)
                requires w * (ed * ln) <= st * (en * ld), p.1 >= 1;
            assert((p.0 * ld) * ed + (en * ld) * p.1 == s.0 * ld) by (nonlinear_arith)
                requires s.0 == p.0 * ed + en * p.1;
            assert(st * (p.0 * ld) * ed == st * ((p.0 * ld) * ed)) by (nonlinear_arith);
            assert(st * (en * ld) * p.1 == st * ((en * ld) * p.1)) by (nonlinear_arith);
            assert(st * ((p.0 * ld) * ed) + st * ((en * ld) * p.1) == st * (s.0 * ld))
                by (nonlinear_arith)
                requires (p.0 * ld) * ed + (en * ld) * p.1 == s.0 * ld;
        }
    }
}

/// With the loads balanced, the elected-edge weights sum to at most
/// the stake.
proof fn lemma_weight_sum_le_stake(
    cands: Seq<Candidate>,
    edges: Seq<Edge>,
    stake: u64,
    load: Rational128,
)
    requires
        load.wf(),
        load.n >= 1,
        forall|k: int| 0 <= k < edges.len() ==> (#[trigger] edges[k]).load.wf(),
        forall|k: int| 0 <= k < edges.len() && (#[trigger] edges[k]).candidate_index
            < cands.len() && cands[edges[k].candidate_index as int].elected
            ==> edges[k].weight == spec_edge_weight(stake, edges[k].load, load),
        load.n * sum_elected_loads(cands, edges).1 == sum_elected_loads(cands, edges).0
            * load.d,
    ensures
        0 <= sum_elected_weights(cands, edges) <= stake,
{
    lemma_weight_sum_le(cands, edges, stake, load);
    lemma_sum_elected_loads_pos(cands, edges);
    let s = sum_elected_loads(cands, edges);
    let sw = sum_elected_weights(cands, edges);
    assert(stake * (s.0 * load.d) == stake * (load.n * s.1)) by (nonlinear_arith)
        requires load.n * s.1 == s.0 * load.d;
    assert(sw <= stake) by (nonlinear_arith)
        requires
            sw * (s.1 * load.n) <= stake * (load.n * s.1),
            s.1 >= 1,
            load.n >= 1,
    ;
}

/// Updating the weight of one edge to an elected candidate shifts the
/// elected-weight sum by the difference.
proof fn lemma_sum_weights_update(cands: Seq<Candidate>, edges: Seq<Edge>, k: int, e2: Edge)
    requires
        0 <= k < edges.len(),
        e2.candidate_index == edges[k].candidate_index,
        e2.candidate_index < cands.len(),
        cands[e2.candidate_index as int].elected,
    ensures
        sum_elected_weights(cands, edges.update(k, e2)) == sum_elected_weights(cands, edges)
            + e2.weight - edges[k].weight,
    decreases edges.len(),
{
    let up = edges.update(k, e2);
    assert(up.len() == edges.len());
    if k == edges.len() - 1 {
        assert(up.drop_last() =~= edges.drop_last());
        assert(up.last() == e2);
    } else {
        lemma_sum_weights_update(cands, edges.drop_last(), k, e2);
        assert(up.drop_last() =~= edges.drop_last().update(k, e2));
        assert(up.last() == edges.last());
    }
}

/// The elected-load sum reads only edge loads and targets, which the
/// weight pass leaves unchanged.
proof fn lemma_sum_loads_same(cands: Seq<Candidate>, e1: Seq<Edge>, e2: Seq<Edge>)
    requires
        e1.len() == e2.len(),
        forall|k: int| 0 <= k < e1.len() ==> (#[trigger] e2[k]).load == e1[k].load
            && e2[k].candidate_index == e1[k].candidate_index,
    ensures
        sum_elected_loads(cands, e1) == sum_elected_loads(cands, e2),
    decreases e1.len(),
{
    if e1.len() > 0 {
        assert(forall|k: int| 0 <= k < e1.drop_last().len()
            ==> #[trigger] e1.drop_last()[k] == e1[k]);
        assert(forall|k: int| 0 <= k < e2.drop_last().len()
            ==> #[trigger] e2.drop_last()[k] == e2[k]);
        lemma_sum_loads_same(cands, e1.drop_last(), e2.drop_last());
        assert(e1.last() == e1[e1.len() - 1]);
        assert(e2.last() == e2[e1.len() - 1]);
    }
}

/// An edge's target is elected.
pub open spec fn edge_elected(cands: Seq<Candidate>, edges: Seq<Edge>, k: int) -> bool {
    edges[k].candidate_index < cands.len() && cands[edges[k].candidate_index as int].elected
}

/// The stake back-assignment rule of one voter, read off its final
/// edges: every elected edge carries `min(stake, ⌊stake·edge_load /
/// voter_load⌋)`, except the first edge `l` of the candidate elected
/// latest, which also absorbs the rounding remainder.
pub open spec fn weights_assigned(
    cands: Seq<Candidate>,
    edges: Seq<Edge>,
    stake: u64,
    load: Rational128,
    l: int,
) -> bool {
    &&& 0 <= l < edges.len()
    &&& edge_elected(cands, edges, l)
    &&& forall|k: int| 0 <= k < l && #[trigger] edge_elected(cands, edges, k)
        ==> cands[edges[k].candidate_index as int].round
            < cands[edges[l].candidate_index as int].round
    &&& forall|k: int| l < k < edges.len() && #[trigger] edge_elected(cands, edges, k)
        ==> cands[edges[k].candidate_index as int].round
            <= cands[edges[l].candidate_index as int].round
    &&& forall|k: int| 0 <= k < edges.len() && k != l && #[trigger] edge_elected(
        cands,
        edges,
        k,
    ) ==> edges[k].weight == spec_edge_weight(stake, edges[k].load, load)
    &&& edges[l].weight >= spec_edge_weight(stake, edges[l].load, load)
}

/// The public weight facts of one voter: edges to unelected
/// candidates carry no weight, and when any edge is elected the
/// remainder edge witnesses the back-assignment rule.
pub open spec fn voter_weights_ok(cands: Seq<Candidate>, vm: VoterModel) -> bool {
    &&& forall|k: int| 0 <= k < vm.edges.len() && !(#[trigger] edge_elected(cands, vm.edges, k))
        ==> vm.edges[k].weight == 0
    &&& has_elected_edge(cands, vm.edges) ==> exists|l: int| #[trigger] weights_assigned(
        cands,
        vm.edges,
        vm.stake,
        vm.load,
        l,
    )
}

/// The weight facts survive candidate changes that keep election
/// state and rounds (the backing pass changes only backed stakes).
proof fn lemma_voter_weights_transfer(
    cands1: Seq<Candidate>,
    cands2: Seq<Candidate>,
    vm: VoterModel,
)
    requires
        cands1.len() == cands2.len(),
        forall|i: int| 0 <= i < cands1.len() ==> (#[trigger] cands2[i]).elected
            == cands1[i].elected && cands2[i].round == cands1[i].round,
        voter_weights_ok(cands1, vm),
    ensures
        voter_weights_ok(cands2, vm),
{
    assert forall|k: int| 0 <= k < vm.edges.len()
        implies (#[trigger] edge_elected(cands2, vm.edges, k)) == edge_elected(
        cands1,
        vm.edges,
        k,
    ) by {
        if vm.edges[k].candidate_index < cands1.len() {
            assert(cands2[vm.edges[k].candidate_index as int].elected
                == cands1[vm.edges[k].candidate_index as int].elected);
        }
    }
    assert forall|k: int| 0 <= k < vm.edges.len() && !(#[trigger] edge_elected(
        cands2,
        vm.edges,
        k,
    )) implies vm.edges[k].weight == 0 by {
        assert(!edge_elected(cands1, vm.edges, k));
    }
    if has_elected_edge(cands2, vm.edges) {
        let k0 = choose|k: int|
            0 <= k < vm.edges.len() && (#[trigger] vm.edges[k]).candidate_index < cands2.len()
                && cands2[vm.edges[k].candidate_index as int].elected;
        assert(has_elected_edge(cands1, vm.edges));
        let l = choose|l: int| #[trigger] weights_assigned(cands1, vm.edges, vm.stake, vm.load, l);
        assert forall|k: int| 0 <= k < l && #[trigger] edge_elected(cands2, vm.edges, k)
            implies cands2[vm.edges[k].candidate_index as int].round
                < cands2[vm.edges[l].candidate_index as int].round by {
            assert(edge_elected(cands1, vm.edges, k));
        }
        assert forall|k: int| l < k < vm.edges.len() && #[trigger] edge_elected(
            cands2,
            vm.edges,
            k,
        ) implies cands2[vm.edges[k].candidate_index as int].round
            <= cands2[vm.edges[l].candidate_index as int].round by {
            assert(edge_elected(cands1, vm.edges, k));
        }
        assert forall|k: int| 0 <= k < vm.edges.len() && k != l && #[trigger] edge_elected(
            cands2,
            vm.edges,
            k,
        ) implies vm.edges[k].weight == spec_edge_weight(vm.stake, vm.edges[k].load, vm.load)
            by {
            assert(edge_elected(cands1, vm.edges, k));
        }
        assert(weights_assigned(cands2, vm.edges, vm.stake, vm.load, l));
    }
}

/// Stake back-assignment for one voter: every elected edge gets
/// `min(stake, ⌊stake·edge_load/voter_load⌋)`, and the rounding
/// remainder goes to the edge of the candidate elected latest, so that
/// nothing of the stake is lost.
fn weigh_voter(cands: &Vec<Candidate>, voter: &Voter, sat: &mut bool) -> (r: Voter)
    requires
        forall|k: int| 0 <= k < voter@.edges.len() ==> {
            let e = #[trigger] voter@.edges[k];
            e.candidate_index < cands@.len() && e.load.wf()
        },
        voter@.load.wf(),
    ensures
        r@.who == voter@.who,
        r@.stake == voter@.stake,
        r@.load == voter@.load,
        r@.edges.len() == voter@.edges.len(),
        forall|k: int| 0 <= k < voter@.edges.len() ==> {
            let e = #[trigger] voter@.edges[k];
            let e2 = r@.edges[k];
            e2.candidate == e.candidate && e2.candidate_index == e.candidate_index
                && e2.load == e.load
        },
        forall|k: int| 0 <= k < voter@.edges.len()
            && !(cands@[(#[trigger] voter@.edges[k]).candidate_index as int].elected)
            ==> r@.edges[k].weight == voter@.edges[k].weight,
        *old(sat) ==> *final(sat),
        (!*final(sat) && loads_balanced(cands@, voter@) && has_elected_edge(
            cands@,
            voter@.edges,
        )) ==> sum_elected_weights(cands@, r@.edges) == voter@.stake,
        has_elected_edge(cands@, voter@.edges) ==> exists|l: int| #[trigger] weights_assigned(
            cands@,
            r@.edges,
            voter@.stake,
            voter@.load,
            l,
        ),
{
    let stake = voter.stake;
    let vload = voter.load;
    let ghost olde = voter@.edges;
    // find an edge of the candidate elected latest, if any is elected
    let mut latest: Option<usize> = None;
    let mut k: usize = 0;
    while k < voter.edges.len()
        invariant
            k <= olde.len(),
            voter@.edges == olde,
            forall|j: int| 0 <= j < voter@.edges.len() ==> {
                let e = #[trigger] voter@.edges[j];
                e.candidate_index < cands@.len() && e.load.wf()
            },
            match latest {
                None => forall|j: int| 0 <= j < k
                    ==> !cands@[(#[trigger] olde[j]).candidate_index as int].elected,
                Some(l) => l < k && edge_elected(cands@, olde, l as int) && (forall|j: int|
                    0 <= j < l && #[trigger] edge_elected(cands@, olde, j)
                        ==> cands@[olde[j].candidate_index as int].round
                        < cands@[olde[l as int].candidate_index as int].round) && (forall|
                    j: int,
                |
                    l < j < k && #[trigger] edge_elected(cands@, olde, j)
                        ==> cands@[olde[j].candidate_index as int].round
                        <= cands@[olde[l as int].candidate_index as int].round),
            },
        decreases olde.len() - k,
    {
        let e = voter.edges[k];
        proof {
            assert(olde[k as int].candidate_index < cands@.len());
        }
        if cands[e.candidate_index].elected {
            match latest {
                None => {
                    latest = Some(k);
                }
                Some(l) => {
                    let le = voter.edges[l];
                    if cands[le.candidate_index].round < cands[e.candidate_index].round {
                        latest = Some(k);
                    }
                }
            }
        }
        k = k + 1;
    }
    match latest {
        None => {
            proof {
                if has_elected_edge(cands@, olde) {
                    let j = choose|j: int|
                        0 <= j < olde.len() && (#[trigger] olde[j]).candidate_index
                            < cands@.len()
                            && cands@[olde[j].candidate_index as int].elected;
                    assert(false);
                }
                assert(!has_elected_edge(cands@, voter@.edges));
            }
            Voter {
                who: voter.who,
                stake,
                load: vload,
                edges: copy_edges(&voter.edges),
            }
        }
        Some(l) => {
            // weigh every elected edge
            let mut new_edges: Vec<Edge> = Vec::new();
            let mut total: u128 = 0;
            let mut k2: usize = 0;
            proof {
                assert(sum_elected_weights(cands@, new_edges@) == 0);
            }
            while k2 < voter.edges.len()
                invariant
                    k2 <= olde.len(),
                    voter@.edges == olde,
                    voter@.load == vload,
                    vload.wf(),
                    forall|j: int| 0 <= j < voter@.edges.len() ==> {
                        let e = #[trigger] voter@.edges[j];
                        e.candidate_index < cands@.len() && e.load.wf()
                    },
                    new_edges@.len() == k2,
                    forall|j: int| 0 <= j < k2 ==> {
                        let e = #[trigger] olde[j];
                        let e2 = new_edges@[j];
                        e2.candidate == e.candidate && e2.candidate_index == e.candidate_index
                            && e2.load == e.load
                    },
                    forall|j: int| 0 <= j < k2
                        && !(cands@[(#[trigger] olde[j]).candidate_index as int].elected)
                        ==> new_edges@[j].weight == olde[j].weight,
                    forall|j: int| 0 <= j < k2
                        && cands@[(#[trigger] olde[j]).candidate_index as int].elected
                        ==> new_edges@[j].weight == spec_edge_weight(stake, olde[j].load, vload),
                    *old(sat) ==> *sat,
                    !*sat ==> total == sum_elected_weights(cands@, new_edges@),
                    vload.n == 0 ==> total == 0,
                decreases olde.len() - k2,
            {
                let e = voter.edges[k2];
                proof {
                    assert(olde[k2 as int].candidate_index < cands@.len());
                    assert(olde[k2 as int].load.wf());
                }
                let pushed: Edge;
                if cands[e.candidate_index].elected {
                    let w = edge_weight(stake, e.load, vload);
                    pushed = Edge { weight: w as u128, ..e };
                    match total.checked_add(w as u128) {
                        Some(t) => {
                            total = t;
                        }
                        None => {
                            *sat = true;
                        }
                    }
                } else {
                    pushed = e;
                }
                proof {
                    assert(new_edges@.push(pushed).drop_last() =~= new_edges@);
                    assert(new_edges@.push(pushed).last() == pushed);
                }
                new_edges.push(pushed);
                k2 = k2 + 1;
            }
            // hand the rounding remainder to the latest-elected edge
            let stake128 = stake as u128;
            let rem = if total <= stake128 {
                stake128 - total
            } else {
                0
            };
            let le = new_edges[l];
            let new_w = match le.weight.checked_add(rem) {
                Some(x) => x,
                None => {
                    *sat = true;
                    u128::MAX
                }
            };
            let ghost pre_set = new_edges@;
            new_edges.set(l, Edge { weight: new_w, ..le });
            proof {
                if !*sat && loads_balanced(cands@, voter@) {
                    lemma_sum_loads_same(cands@, olde, pre_set);
                    if vload.n == 0 {
                        assert(total == 0);
                    } else {
                        assert forall|j: int| 0 <= j < pre_set.len()
                            implies (#[trigger] pre_set[j]).load.wf() by {
                            assert(voter@.edges[j].load.wf());
                        }
                        assert forall|j: int|
                            0 <= j < pre_set.len() && (#[trigger] pre_set[j]).candidate_index
                                < cands@.len()
                                && cands@[pre_set[j].candidate_index as int].elected
                            implies pre_set[j].weight == spec_edge_weight(
                            stake,
                            pre_set[j].load,
                            vload,
                        ) by {
                            assert(olde[j].candidate_index == pre_set[j].candidate_index);
                            assert(pre_set[j].load == olde[j].load);
                            assert(pre_set[j].weight == spec_edge_weight(
                                stake,
                                olde[j].load,
                                vload,
                            ));
                        }
                        lemma_weight_sum_le_stake(cands@, pre_set, stake, vload);
                        assert(total <= stake128);
                    }
                    lemma_sum_weights_update(
                        cands@,
                        pre_set,
                        l as int,
                        Edge { weight: new_w, ..le },
                    );
                    assert(new_w == le.weight + rem);
                    assert(sum_elected_weights(cands@, new_edges@) == total + rem);
                    assert(total + rem == stake128);
                }
                // the remainder edge witnesses the public weight rule
                assert forall|k: int| 0 <= k < new_edges@.len()
                    implies (#[trigger] edge_elected(cands@, new_edges@, k)) == edge_elected(
                    cands@,
                    olde,
                    k,
                ) && new_edges@[k].candidate_index == olde[k].candidate_index
                    && new_edges@[k].load == olde[k].load by {
                    if k != l {
                        assert(new_edges@[k] == pre_set[k]);
                    }
                    assert(olde[k].candidate_index == new_edges@[k].candidate_index);
                }
                assert(le == pre_set[l as int]);
                assert(le.weight == spec_edge_weight(stake, olde[l as int].load, vload));
                assert(new_edges@[l as int].weight >= spec_edge_weight(
                    stake,
                    new_edges@[l as int].load,
                    vload,
                ));
                assert(weights_assigned(cands@, new_edges@, stake, vload, l as int));
            }
            let result = Voter { who: voter.who, stake, load: vload, edges: new_edges };
            proof {
                assert(result@.edges == new_edges@);
                assert(weights_assigned(cands@, result@.edges, voter@.stake, voter@.load,
                    l as int));
                assert(exists|l2: int| #[trigger] weights_assigned(
                    cands@,
                    result@.edges,
                    voter@.stake,
                    voter@.load,
                    l2,
                ));
            }
            result
        }
    }
}

/// Saturating sum of the weights one voter's edges apply to the
/// candidate at arena index `i`.
pub open spec fn backed_from_edges(acc: int, edges: Seq<Edge>, i: int) -> int
    decreases edges.len(),
{
    if edges.len() == 0 {
        acc
    } else {
        let acc2 = if edges[0].candidate_index == i {
            sat_add_u128_int(acc, edges[0].weight as int)
        } else {
            acc
        };
        backed_from_edges(acc2, edges.skip(1), i)
    }
}

/// Saturating sum over all voters of the weights applied to the
/// candidate at arena index `i`.
pub open spec fn backed_sum(acc: int, voters: Seq<VoterModel>, i: int) -> int
    decreases voters.len(),
{
    if voters.len() == 0 {
        acc
    } else {
        backed_sum(backed_from_edges(acc, voters[0].edges, i), voters.skip(1), i)
    }
}

/// Fills `backed_stake` of every elected candidate with the saturating
/// sum of the weights its edges received.
pub fn set_backed_stakes(cands: &mut Vec<Candidate>, voters: &Vec<Voter>)
    ensures
        final(cands)@.len() == old(cands)@.len(),
        forall|i: int| 0 <= i < old(cands)@.len() ==> {
            let c = #[trigger] old(cands)@[i];
            if c.elected {
                final(cands)@[i] == (Candidate {
                    backed_stake: backed_sum(0, models(voters@), i) as u128,
                    ..c
                })
            } else {
                final(cands)@[i] == c
            }
        },
{
    let n = cands.len();
    let ghost vms = models(voters@);
    let mut i: usize = 0;
    while i < n
        invariant
            i <= n,
            cands@.len() == n,
            old(cands)@.len() == n,
            vms == models(voters@),
            forall|j: int| 0 <= j < i ==> {
                let c = #[trigger] old(cands)@[j];
                if c.elected {
                    cands@[j] == (Candidate {
                        backed_stake: backed_sum(0, vms, j) as u128,
                        ..c
                    })
                } else {
                    cands@[j] == c
                }
            },
            forall|j: int| i <= j < n ==> cands@[j] == #[trigger] old(cands)@[j],
        decreases n - i,
    {
        let c = cands[i];
        if c.elected {
            let mut acc: u128 = 0;
            let mut v: usize = 0;
            proof {
                assert(vms.skip(0) =~= vms);
            }
            while v < voters.len()
                invariant
                    v <= voters@.len(),
                    vms == models(voters@),
                    backed_sum(acc as int, vms.skip(v as int), i as int)
                        == backed_sum(0, vms, i as int),
                decreases voters@.len() - v,
            {
                let voter = &voters[v];
                let ghost edges_seq = voter.edges@;
                let ghost acc_enter = acc as int;
                let mut k: usize = 0;
                proof {
                    assert(edges_seq.skip(0) =~= edges_seq);
                    assert(vms[v as int] == voters@[v as int]@);
                }
                while k < voter.edges.len()
                    invariant
                        k <= edges_seq.len(),
                        voter.edges@ == edges_seq,
                        backed_from_edges(acc as int, edges_seq.skip(k as int), i as int)
                            == backed_from_edges(acc_enter, edges_seq, i as int),
                    decreases edges_seq.len() - k,
                {
                    proof {
                        assert(edges_seq.skip(k as int)[0] == edges_seq[k as int]);
                        assert(edges_seq.skip(k as int).skip(1) =~= edges_seq.skip(k + 1));
                    }
                    let e = voter.edges[k];
                    if e.candidate_index == i {
                        acc = acc.saturating_add(e.weight);
                    }
                    k = k + 1;
                }
                proof {
                    assert(edges_seq.skip(edges_seq.len() as int) =~= Seq::<Edge>::empty());
                    assert(vms.skip(v as int)[0] == vms[v as int]);
                    assert(vms.skip(v as int).skip(1) =~= vms.skip(v + 1));
                }
                v = v + 1;
            }
            proof {
                assert(vms.skip(vms.len() as int) =~= Seq::<VoterModel>::empty());
            }
            cands.set(i, Candidate { backed_stake: acc, ..c });
        }
        i = i + 1;
    }
}

/// The arena index of the candidate elected in round `r`, or `-1`.
pub open spec fn find_round(cands: Seq<Candidate>, r: int) -> int
    decreases cands.len(),
{
    if cands.len() == 0 {
        -1
    } else if cands[0].elected && cands[0].round == r {
        0
    } else {
        let x = find_round(cands.skip(1), r);
        if x < 0 {
            -1
        } else {
            x + 1
        }
    }
}

/// Some candidate was elected in round `r`.
pub open spec fn round_filled(cands: Seq<Candidate>, r: int) -> bool {
    exists|i: int|
        0 <= i < cands.len() && (#[trigger] cands[i]).elected && cands[i].round == r
}

/// What `find_round` returns.
pub proof fn lemma_find_round_char(cands: Seq<Candidate>, r: int)
    ensures
        find_round(cands, r) == -1 <==> !round_filled(cands, r),
        find_round(cands, r) >= 0 ==> {
            let x = find_round(cands, r);
            &&& x < cands.len()
            &&& cands[x].elected && cands[x].round == r
            &&& forall|j: int| 0 <= j < x
                ==> !((#[trigger] cands[j]).elected && cands[j].round == r)
        },
    decreases cands.len(),
{
    if cands.len() > 0 && !(cands[0].elected && cands[0].round == r) {
        lemma_find_round_char(cands.skip(1), r);
        let x1 = find_round(cands.skip(1), r);
        if x1 == -1 {
            if round_filled(cands, r) {
                let i = choose|i: int|
                    0 <= i < cands.len() && (#[trigger] cands[i]).elected && cands[i].round
                        == r;
                assert(i > 0);
                assert(cands.skip(1)[i - 1] == cands[i]);
                assert(round_filled(cands.skip(1), r));
                assert(false);
            }
        } else {
            assert(cands.skip(1)[x1] == cands[x1 + 1]);
            assert forall|j: int| 0 <= j < x1 + 1
                implies !((#[trigger] cands[j]).elected && cands[j].round == r) by {
                if j > 0 {
                    assert(cands.skip(1)[j - 1] == cands[j]);
                }
            }
        }
    } else if cands.len() > 0 {
        assert(round_filled(cands, r));
    }
}

/// One winners entry is correct for round `k+1`: it names the
/// candidate that `find_round` locates for that round, with its score
/// normalized to parts-per-billion.
pub open spec fn winner_entry_ok(cands: Seq<Candidate>, entry: (AccountId, u32), k: int) -> bool {
    let i = find_round(cands, k + 1);
    &&& 0 <= i < cands.len()
    &&& cands[i].elected && cands[i].round == k + 1
    &&& entry.0 == cands[i].who
    &&& entry.1 == cands[i].score.spec_to_perbill()
}

/// Collects the winners in round order, each with its score normalized
/// to parts-per-billion.
pub fn build_winners(cands: &Vec<Candidate>, ec: usize) -> (r: Vec<(AccountId, u32)>)
    requires
        forall|rr: int| 1 <= rr <= ec ==> round_filled(cands@, rr),
        forall|i: int| 0 <= i < cands@.len() ==> (#[trigger] cands@[i]).score.wf(),
    ensures
        r@.len() == ec,
        forall|k: int| 0 <= k < ec ==> #[trigger] winner_entry_ok(cands@, r@[k], k),
{
    let mut winners: Vec<(AccountId, u32)> = Vec::new();
    let mut done: usize = 0;
    while done < ec
        invariant
            done <= ec,
            winners@.len() == done,
            forall|r2: int| 1 <= r2 <= ec ==> round_filled(cands@, r2),
            forall|i: int| 0 <= i < cands@.len() ==> (#[trigger] cands@[i]).score.wf(),
            forall|k: int| 0 <= k < done ==> #[trigger] winner_entry_ok(cands@, winners@[k], k),
        decreases ec - done,
    {
        let rr = done + 1;
        // locate the candidate elected in round rr
        let mut idx: Option<usize> = None;
        let mut i: usize = 0;
        while i < cands.len()
            invariant
                i <= cands@.len(),
                rr == done + 1,
                match idx {
                    None => forall|j: int| 0 <= j < i
                        ==> !((#[trigger] cands@[j]).elected && cands@[j].round == rr),
                    Some(x) => x < cands@.len() && find_round(cands@, rr as int) == x,
                },
            decreases cands@.len() - i,
        {
            let c = &cands[i];
            let hit = c.elected && c.round == rr;
            if idx.is_none() && hit {
                proof {
                    lemma_find_round_char(cands@, rr as int);
                    assert(cands@[i as int].elected && cands@[i as int].round == rr);
                    assert(round_filled(cands@, rr as int));
                    let x = find_round(cands@, rr as int);
                    assert(x >= 0);
                    if x < i {
                        assert(cands@[x].elected && cands@[x].round == rr);
                        assert(false);
                    }
                    if x > i {
                        assert(!(cands@[i as int].elected && cands@[i as int].round == rr));
                        assert(false);
                    }
                }
                idx = Some(i);
            }
            i = i + 1;
        }
        let ghost old_w = winners@;
        match idx {
            Some(x) => {
                let c = &cands[x];
                let p = c.score.to_perbill();
                winners.push((c.who, p));
                proof {
                    assert forall|k: int| 0 <= k < done + 1
                        implies #[trigger] winner_entry_ok(cands@, winners@[k], k) by {
                        if k < done {
                            assert(winners@[k] == old_w[k]);
                            assert(winner_entry_ok(cands@, old_w[k], k));
                        } else {
                            assert(winners@[k] == (c.who, p));
                            lemma_find_round_char(cands@, rr as int);
                            assert(find_round(cands@, rr as int) == x);
                            assert(cands@[x as int].elected && cands@[x as int].round == rr);
                        }
                    }
                }
            }
            None => {
                proof {
                    assert(round_filled(cands@, rr as int));
                    let j = choose|j: int|
                        0 <= j < cands@.len() && (#[trigger] cands@[j]).elected
                            && cands@[j].round == rr as int;
                    assert(false);
                }
            }
        }
        done = done + 1;
    }
    winners
}

/// Saturating rational operations keep the denominator positive.
pub proof fn lemma_rat_ops_wf(a: Rational128, b: Rational128, x: u128)
    requires
        a.wf(),
        b.wf(),
    ensures
        a.spec_add(b).wf(),
        a.spec_mul_u128(x).wf(),
        a.spec_sub_or_zero(b).wf(),
{
    assert(a.d * b.d >= 1) by (nonlinear_arith)
        requires a.d >= 1, b.d >= 1;
}

/// The phase-B folds preserve well-formedness of the score.
proof fn lemma_augment_edges_wf(
    s: Rational128,
    load: Rational128,
    stake: u64,
    edges: Seq<Edge>,
    i: int,
)
    requires
        s.wf(),
        load.wf(),
    ensures
        augment_edges(s, load, stake, edges, i).wf(),
    decreases edges.len(),
{
    if edges.len() > 0 {
        let s1 = if edges[0].candidate_index == i {
            s.spec_add(load.spec_mul_u128(stake as u128))
        } else {
            s
        };
        lemma_rat_ops_wf(load, load, stake as u128);
        lemma_rat_ops_wf(s, load.spec_mul_u128(stake as u128), 0);
        lemma_augment_edges_wf(s1, load, stake, edges.skip(1), i);
    }
}

/// The whole phase-B fold preserves well-formedness of the score.
pub proof fn lemma_augmented_score_wf(s: Rational128, vms: Seq<VoterModel>, i: int)
    requires
        s.wf(),
        forall|v: int| 0 <= v < vms.len() ==> (#[trigger] vms[v]).load.wf(),
    ensures
        augmented_score(s, vms, i).wf(),
    decreases vms.len(),
{
    if vms.len() > 0 {
        lemma_augment_edges_wf(s, vms[0].load, vms[0].stake, vms[0].edges, i);
        let s1 = augment_edges(s, vms[0].load, vms[0].stake, vms[0].edges, i);
        assert(forall|v: int| 0 <= v < vms.skip(1).len()
            ==> #[trigger] vms.skip(1)[v] == vms[v + 1]);
        lemma_augmented_score_wf(s1, vms.skip(1), i);
    }
}

/// Replacing the zero load of one elected edge by `nl` adds exactly
/// `nl` to the value of the elected-load sum.
#[verifier::rlimit(50)]
proof fn lemma_sum_update_value(cands: Seq<Candidate>, edges: Seq<Edge>, k: int, nl: Rational128)
    requires
        0 <= k < edges.len(),
        edges[k].candidate_index < cands.len(),
        cands[edges[k].candidate_index as int].elected,
        edges[k].load == crate::rational::rat_zero(),
        forall|j: int| 0 <= j < edges.len() ==> (#[trigger] edges[j]).load.wf(),
        nl.wf(),
    ensures
        ({
            let s1 = sum_elected_loads(cands, edges);
            let s2 = sum_elected_loads(
                cands,
                edges.update(k, Edge { load: nl, ..edges[k] }),
            );
            s2.0 * (s1.1 * nl.d) == (s1.0 * nl.d + nl.n * s1.1) * s2.1
        }),
    decreases edges.len(),
{
    let up = edges.update(k, Edge { load: nl, ..edges[k] });
    let s1 = sum_elected_loads(cands, edges);
    let s2 = sum_elected_loads(cands, up);
    lemma_sum_elected_loads_pos(cands, edges);
    assert forall|j: int| 0 <= j < up.len() implies (#[trigger] up[j]).load.wf() by {
        if j != k {
            assert(up[j] == edges[j]);
        }
    }
    lemma_sum_elected_loads_pos(cands, up);
    if k == edges.len() - 1 {
        assert(up.drop_last() =~= edges.drop_last());
        let p = sum_elected_loads(cands, edges.drop_last());
        assert(up.last() == Edge { load: nl, ..edges[k] });
        assert(edges.last() == edges[k]);
        // the replaced edge carried zero, so the old sum is just the prefix sum
        assert(s1 == (p.0 * 1 + 0 * p.1, p.1 * 1));
        assert(s2 == (p.0 * nl.d + nl.n * p.1, p.1 * nl.d));
        assert(s2.0 * (s1.1 * nl.d) == (s1.0 * nl.d + nl.n * s1.1) * s2.1)
            by (nonlinear_arith)
            requires
                s1.0 == p.0,
                s1.1 == p.1,
                s2.0 == p.0 * nl.d + nl.n * p.1,
                s2.1 == p.1 * nl.d,
        ;
    } else {
        assert(up.drop_last() =~= edges.drop_last().update(k, Edge { load: nl, ..edges[k] }));
        assert(edges.drop_last()[k] == edges[k]);
        lemma_sum_update_value(cands, edges.drop_last(), k, nl);
        lemma_sum_elected_loads_pos(cands, edges.drop_last());
        assert forall|j: int| 0 <= j < up.drop_last().len()
            implies (#[trigger] up.drop_last()[j]).load.wf() by {
            assert(up.drop_last()[j] == up[j]);
        }
        lemma_sum_elected_loads_pos(cands, up.drop_last());
        let p1 = sum_elected_loads(cands, edges.drop_last());
        let p2 = sum_elected_loads(cands, up.drop_last());
        let e = edges.last();
        assert(up.last() == e);
        let a = nl.n as int;
        let b = nl.d as int;
        if e.candidate_index < cands.len() && cands[e.candidate_index as int].elected {
            let en = e.load.n as int;
            let ed = e.load.d as int;
            assert(s1 == (p1.0 * ed + en * p1.1, p1.1 * ed));
            assert(s2 == (p2.0 * ed + en * p2.1, p2.1 * ed));
            let q = p1.1 * b;
            assert(s1.1 * b == q * ed) by (nonlinear_arith)
                requires s1.1 == p1.1 * ed, q == p1.1 * b;
            assert(s2.0 * (q * ed) == (p2.0 * q) * (ed * ed) + (en * p2.1) * q * ed)
                by (nonlinear_arith)
                requires s2.0 == p2.0 * ed + en * p2.1;
            assert((en * p2.1) * q * ed == (en * p2.1) * (p1.1 * b) * ed);
            assert((p2.0 * q) * (ed * ed) == (p2.0 * (p1.1 * b)) * (ed * ed));
            assert(s2.0 * (s1.1 * b) == (p2.0 * (p1.1 * b)) * (ed * ed) + (en * p2.1) * (p1.1
                * b) * ed);
            let u = p1.0 * b + a * p1.1;
            assert(s1.0 * b + a * s1.1 == u * ed + en * p1.1 * b) by (nonlinear_arith)
                requires
                    s1.0 == p1.0 * ed + en * p1.1,
                    s1.1 == p1.1 * ed,
                    u == p1.0 * b + a * p1.1,
            ;
            let t = en * p1.1 * b;
            assert((u * ed + t) * (p2.1 * ed) == (u * p2.1) * (ed * ed) + t * (p2.1 * ed))
                by (nonlinear_arith);
            assert(t * (p2.1 * ed) == (en * p1.1) * (p2.1 * b) * ed) by (nonlinear_arith)
                requires t == en * p1.1 * b;
            assert((u * ed + en * p1.1 * b) * (p2.1 * ed) == (u * p2.1) * (ed * ed) + (en
                * p1.1) * (p2.1 * b) * ed);
            assert((s1.0 * b + a * s1.1) * s2.1 == (u * ed + en * p1.1 * b) * (p2.1 * ed));
            assert((s1.0 * b + a * s1.1) * s2.1 == ((p1.0 * b + a * p1.1) * p2.1) * (ed * ed)
                + (en * p1.1) * (p2.1 * b) * ed);
            assert((p2.0 * (p1.1 * b)) * (ed * ed) == ((p1.0 * b + a * p1.1) * p2.1) * (ed
                * ed)) by (nonlinear_arith)
                requires p2.0 * (p1.1 * b) == (p1.0 * b + a * p1.1) * p2.1;
            assert((en * p2.1) * (p1.1 * b) * ed == (en * p1.1) * (p2.1 * b) * ed)
                by (nonlinear_arith);
        } else {
            assert(s1 == p1);
            assert(s2 == p2);
        }
    }
}

/// Equal-valued elected-load sums support the same balance relation.
proof fn lemma_balance_transfer(load: Rational128, s1: (int, int), s2: (int, int))
    requires
        s1.1 >= 1,
        s2.1 >= 1,
        load.n * s1.1 == s1.0 * load.d,
        s1.0 * s2.1 == s2.0 * s1.1,
    ensures
        load.n * s2.1 == s2.0 * load.d,
{
    let ln = load.n as int;
    let ld = load.d as int;
    assert(ln * s2.1 * s1.1 == s2.0 * ld * s1.1) by (nonlinear_arith)
        requires
            ln * s1.1 == s1.0 * ld,
            s1.0 * s2.1 == s2.0 * s1.1,
    ;
    assert(ln * s2.1 == s2.0 * ld) by (nonlinear_arith)
        requires ln * s2.1 * s1.1 == s2.0 * ld * s1.1, s1.1 >= 1;
}

/// The load update of phase D preserves the balance: when the voter's
/// load grows by exactly the new edge load, and the elected-load sum
/// does too, the two stay equal in value.
proof fn lemma_balance_step(
    load: Rational128,
    nl: Rational128,
    load2: Rational128,
    s1: (int, int),
    s2: (int, int),
)
    requires
        load.wf(),
        nl.wf(),
        load2 == load.spec_add(nl),
        !load2.spec_is_infinite(),
        s1.1 >= 1,
        s2.1 >= 1,
        load.n * s1.1 == s1.0 * load.d,
        s2.0 * (s1.1 * nl.d) == (s1.0 * nl.d + nl.n * s1.1) * s2.1,
    ensures
        load2.n * s2.1 == s2.0 * load2.d,
{
    let ln = load.n as int;
    let ld = load.d as int;
    let a = nl.n as int;
    let b = nl.d as int;
    // a non-saturated sum is the exact cross formula
    assert(load2.n == ln * b + a * ld && load2.d == ld * b);
    assert((ln * b + a * ld) * s2.1 * s1.1 == (ln * s1.1) * (b * s2.1) + a * ld * s2.1
        * s1.1) by (nonlinear_arith);
    assert((ln * s1.1) * (b * s2.1) == (s1.0 * ld) * (b * s2.1)) by (nonlinear_arith)
        requires ln * s1.1 == s1.0 * ld;
    assert((s1.0 * b + a * s1.1) * s2.1 == s1.0 * (b * s2.1) + a * (s1.1 * s2.1))
        by (nonlinear_arith);
    assert(ld * (s1.0 * (b * s2.1) + a * (s1.1 * s2.1)) == ld * (s1.0 * (b * s2.1)) + ld * (a
        * (s1.1 * s2.1))) by (nonlinear_arith);
    assert(ld * (s1.0 * (b * s2.1)) == (s1.0 * ld) * (b * s2.1)) by (nonlinear_arith);
    assert(ld * (a * (s1.1 * s2.1)) == a * ld * s2.1 * s1.1) by (nonlinear_arith);
    assert((s1.0 * ld) * (b * s2.1) + a * ld * s2.1 * s1.1 == ld * ((s1.0 * b + a * s1.1)
        * s2.1));
    assert(ld * ((s1.0 * b + a * s1.1) * s2.1) == ld * (s2.0 * (s1.1 * b)))
        by (nonlinear_arith)
        requires s2.0 * (s1.1 * b) == (s1.0 * b + a * s1.1) * s2.1;
    assert(ld * (s2.0 * (s1.1 * b)) == s2.0 * (ld * b) * s1.1) by (nonlinear_arith);
    assert((ln * b + a * ld) * s2.1 == s2.0 * (ld * b)) by (nonlinear_arith)
        requires
            (ln * b + a * ld) * s2.1 * s1.1 == s2.0 * (ld * b) * s1.1,
            s1.1 >= 1,
    ;
}

/// What phase D does to one voter, spelled out field by field.
pub proof fn lemma_distribute_voter_props(wscore: Rational128, w: int, vm: VoterModel)
    requires
        vm.load.wf(),
        wscore.wf(),
        forall|k: int| 0 <= k < vm.edges.len() ==> (#[trigger] vm.edges[k]).load.wf(),
    ensures
        ({
            let vm2 = distribute_voter(wscore, w, vm);
            &&& vm2.who == vm.who
            &&& vm2.stake == vm.stake
            &&& vm2.load.wf()
            &&& vm2.edges.len() == vm.edges.len()
            &&& forall|k: int| 0 <= k < vm.edges.len() ==> {
                let e2 = #[trigger] vm2.edges[k];
                e2.candidate == vm.edges[k].candidate && e2.candidate_index
                    == vm.edges[k].candidate_index && e2.weight == vm.edges[k].weight
                    && e2.load.wf()
            }
            &&& forall|k: int| 0 <= k < vm.edges.len()
                && (#[trigger] vm.edges[k]).candidate_index != w
                ==> vm2.edges[k].load == vm.edges[k].load
        }),
{
    lemma_find_edge_char(vm.edges, w);
    let k0 = find_edge(vm.edges, w);
    if k0 >= 0 {
        let nl = wscore.spec_sub_or_zero(vm.load);
        lemma_rat_ops_wf(wscore, vm.load, 0);
        lemma_rat_ops_wf(vm.load, nl, 0);
        let vm2 = distribute_voter(wscore, w, vm);
        assert forall|k: int| 0 <= k < vm.edges.len() implies {
            let e2 = #[trigger] vm2.edges[k];
            e2.candidate == vm.edges[k].candidate && e2.candidate_index
                == vm.edges[k].candidate_index && e2.weight == vm.edges[k].weight
                && e2.load.wf()
        } by {
            if k != k0 {
                assert(vm2.edges[k] == vm.edges[k]);
            }
        }
    }
}

/// The elected-weight sum reads only the `elected` flags, which the
/// backed-stake pass leaves unchanged.
proof fn lemma_sum_weights_same_elected(
    cands1: Seq<Candidate>,
    cands2: Seq<Candidate>,
    edges: Seq<Edge>,
)
    requires
        cands1.len() == cands2.len(),
        forall|i: int| 0 <= i < cands1.len()
            ==> (#[trigger] cands1[i]).elected == cands2[i].elected,
    ensures
        sum_elected_weights(cands1, edges) == sum_elected_weights(cands2, edges),
    decreases edges.len(),
{
    if edges.len() > 0 {
        lemma_sum_weights_same_elected(cands1, cands2, edges.drop_last());
    }
}

/// The per-voter invariant of the round loop: the voter keeps its
/// setup identity and edge shape, weights are still zero, and edges to
/// not-yet-elected candidates still carry zero load.
pub open spec fn voter_state_ok(
    vms0: Seq<VoterModel>,
    cands: Seq<Candidate>,
    vm: VoterModel,
    v: int,
) -> bool {
    &&& vm.who == vms0[v].who
    &&& vm.stake == vms0[v].stake
    &&& vm.load.wf()
    &&& vm.edges.len() == vms0[v].edges.len()
    &&& forall|k: int| 0 <= k < vm.edges.len() ==> {
        let e = #[trigger] vm.edges[k];
        &&& e.candidate == vms0[v].edges[k].candidate
        &&& e.candidate_index == vms0[v].edges[k].candidate_index
        &&& e.weight == 0
        &&& e.load.wf()
        &&& e.candidate_index < cands.len()
        &&& cands[e.candidate_index as int].who == e.candidate
        &&& (!cands[e.candidate_index as int].elected ==> e.load
            == crate::rational::rat_zero())
    }
}

/// The candidate-side invariant of the round loop: identities and
/// approval stakes are the setup's, exactly the first `ec` rounds have
/// elected someone, and elected candidates have positive approval.
pub open spec fn cands_state_ok(cands0: Seq<Candidate>, cands: Seq<Candidate>, ec: int) -> bool {
    &&& cands.len() == cands0.len()
    &&& forall|i: int| 0 <= i < cands.len() ==> {
        let c = #[trigger] cands[i];
        &&& c.who == cands0[i].who
        &&& c.approval_stake == cands0[i].approval_stake
        &&& c.backed_stake == 0
        &&& c.score.wf()
        &&& (c.elected ==> 1 <= c.round <= ec && c.approval_stake > 0)
        &&& (!c.elected ==> c.round == 0)
    }
    &&& forall|i: int, j: int| #![trigger cands[i], cands[j]] 0 <= i < j < cands.len()
        && cands[i].elected && cands[j].elected ==> cands[i].round != cands[j].round
    &&& forall|r: int| 1 <= r <= ec ==> round_filled(cands, r)
    &&& count_elected(cands) == ec
}

/// A voter invariant survives any candidate change that keeps length,
/// identities and election state.
proof fn lemma_voter_state_transfer(
    vms0: Seq<VoterModel>,
    cands1: Seq<Candidate>,
    cands2: Seq<Candidate>,
    vm: VoterModel,
    v: int,
)
    requires
        voter_state_ok(vms0, cands1, vm, v),
        cands2.len() == cands1.len(),
        forall|i: int| 0 <= i < cands1.len() ==> (#[trigger] cands2[i]).who == cands1[i].who
            && cands2[i].elected == cands1[i].elected,
    ensures
        voter_state_ok(vms0, cands2, vm, v),
{
    assert forall|k: int| 0 <= k < vm.edges.len() implies {
        let e = #[trigger] vm.edges[k];
        &&& e.candidate == vms0[v].edges[k].candidate
        &&& e.candidate_index == vms0[v].edges[k].candidate_index
        &&& e.weight == 0
        &&& e.load.wf()
        &&& e.candidate_index < cands2.len()
        &&& cands2[e.candidate_index as int].who == e.candidate
        &&& (!cands2[e.candidate_index as int].elected ==> e.load
            == crate::rational::rat_zero())
    } by {
        let e = vm.edges[k];
        assert(cands2[e.candidate_index as int].who == cands1[e.candidate_index as int].who);
    }
}

/// A voter invariant also survives electing one more candidate.
proof fn lemma_voter_state_after_elect(
    vms0: Seq<VoterModel>,
    cands1: Seq<Candidate>,
    cands2: Seq<Candidate>,
    vm: VoterModel,
    v: int,
    w: int,
)
    requires
        voter_state_ok(vms0, cands1, vm, v),
        cands2.len() == cands1.len(),
        0 <= w < cands1.len(),
        cands2[w].who == cands1[w].who,
        cands2[w].elected,
        forall|i: int| 0 <= i < cands1.len() && i != w ==> (#[trigger] cands2[i]).who
            == cands1[i].who && cands2[i].elected == cands1[i].elected,
    ensures
        voter_state_ok(vms0, cands2, vm, v),
{
    assert forall|k: int| 0 <= k < vm.edges.len() implies {
        let e = #[trigger] vm.edges[k];
        &&& e.candidate == vms0[v].edges[k].candidate
        &&& e.candidate_index == vms0[v].edges[k].candidate_index
        &&& e.weight == 0
        &&& e.load.wf()
        &&& e.candidate_index < cands2.len()
        &&& cands2[e.candidate_index as int].who == e.candidate
        &&& (!cands2[e.candidate_index as int].elected ==> e.load
            == crate::rational::rat_zero())
    } by {
        let e = vm.edges[k];
        if e.candidate_index != w {
            assert(cands2[e.candidate_index as int].who
                == cands1[e.candidate_index as int].who);
        }
    }
}

/// Balance survives any candidate change that keeps the election state.
proof fn lemma_balance_same_elected(
    cands1: Seq<Candidate>,
    cands2: Seq<Candidate>,
    vm: VoterModel,
)
    requires
        cands1.len() == cands2.len(),
        forall|i: int| 0 <= i < cands1.len()
            ==> (#[trigger] cands1[i]).elected == cands2[i].elected,
        loads_balanced(cands1, vm),
    ensures
        loads_balanced(cands2, vm),
{
    lemma_sum_elected_loads_same(cands1, cands2, vm.edges);
}

/// With nothing elected, the elected-load sum is zero.
proof fn lemma_sum_elected_loads_none(cands: Seq<Candidate>, edges: Seq<Edge>)
    requires
        forall|i: int| 0 <= i < cands.len() ==> !(#[trigger] cands[i]).elected,
    ensures
        sum_elected_loads(cands, edges) == (0int, 1int),
    decreases edges.len(),
{
    if edges.len() > 0 {
        lemma_sum_elected_loads_none(cands, edges.drop_last());
    }
}

/// Pointwise equal approval stakes give equal positive counts.
proof fn lemma_count_positive_same(c1: Seq<Candidate>, c2: Seq<Candidate>)
    requires
        c1.len() == c2.len(),
        forall|i: int| 0 <= i < c1.len()
            ==> (#[trigger] c2[i]).approval_stake == c1[i].approval_stake,
    ensures
        count_positive(c2) == count_positive(c1),
    decreases c1.len(),
{
    if c1.len() > 0 {
        assert(forall|i: int| 0 <= i < c1.drop_last().len()
            ==> #[trigger] c1.drop_last()[i] == c1[i]);
        assert(forall|i: int| 0 <= i < c2.drop_last().len()
            ==> #[trigger] c2.drop_last()[i] == c2[i]);
        lemma_count_positive_same(c1.drop_last(), c2.drop_last());
    }
}

/// A prefix agrees with the longer sequence on every shared index.
proof fn lemma_prefix_index<A>(s1: Seq<A>, s2: Seq<A>, i: int)
    requires
        s1.is_prefix_of(s2),
        0 <= i < s1.len(),
    ensures
        s2[i] == s1[i],
{
    assert(s2.subrange(0, s1.len() as int)[i] == s2[i]);
}

/// A zero positive-count means no candidate has positive approval.
pub proof fn lemma_count_positive_zero(cands: Seq<Candidate>)
    ensures
        count_positive(cands) == 0 <==> (forall|i: int|
            0 <= i < cands.len() ==> (#[trigger] cands[i]).approval_stake == 0),
    decreases cands.len(),
{
    if cands.len() > 0 {
        let dl = cands.drop_last();
        lemma_count_positive_zero(dl);
        lemma_counts(dl);
        if count_positive(cands) == 0 {
            assert(count_positive(dl) == 0);
            assert forall|i: int| 0 <= i < cands.len()
                implies (#[trigger] cands[i]).approval_stake == 0 by {
                if i < cands.len() - 1 {
                    assert(dl[i] == cands[i]);
                    assert(dl[i].approval_stake == 0);
                } else {
                    assert(cands.last().approval_stake == 0);
                }
            }
        }
        if forall|i: int| 0 <= i < cands.len() ==> (#[trigger] cands[i]).approval_stake == 0 {
            assert forall|i: int| 0 <= i < dl.len()
                implies (#[trigger] dl[i]).approval_stake == 0 by {
                assert(dl[i] == cands[i]);
            }
            assert(count_positive(dl) == 0);
            assert(cands.last() == cands[cands.len() - 1]);
            assert(count_positive(cands) == 0);
        }
    }
}

/// Everything `seq_phragmen` promises of its result, as one
/// predicate over the raw inputs.
pub open spec fn engine_post(
    to_elect: usize,
    ids: Seq<AccountId>,
    vs: Seq<(AccountId, u64, Vec<AccountId>)>,
    r: Result<PhragmenOutputs, ElectionsError>,
) -> bool {
            let setup = setup_state(ids, vs);
            match r {
                Err(e) => e == ElectionsError::EngineDegenerate && to_elect > 0
                    && count_positive(setup.0) == 0,
                Ok(out) => {
                    &&& (to_elect == 0 || count_positive(setup.0) > 0)
                    &&& out.candidates@.len() == setup.0.len()
                    &&& forall|i: int| 0 <= i < setup.0.len() ==> {
                        let c = #[trigger] out.candidates@[i];
                        c.who == setup.0[i].who && c.approval_stake == setup.0[i].approval_stake
                    }
                    &&& forall|i: int| 0 <= i < setup.0.len()
                        && (#[trigger] out.candidates@[i]).elected
                        ==> out.candidates@[i].approval_stake > 0
                    &&& forall|i: int| 0 <= i < setup.0.len() ==> ((#[trigger]
                    out.candidates@[i]).elected <==> 1 <= out.candidates@[i].round
                        <= out.result.winners@.len())
                    &&& out.result.winners@.len() <= to_elect
                    &&& (!out.saturated ==> out.result.winners@.len() == (if to_elect
                        <= count_positive(setup.0) {
                        to_elect as int
                    } else {
                        count_positive(setup.0)
                    }))
                    &&& forall|k: int| 0 <= k < out.result.winners@.len()
                        ==> #[trigger] winner_entry_ok(out.candidates@, out.result.winners@[k], k)
                    &&& count_elected(out.candidates@) == out.result.winners@.len()
                    &&& forall|i: int| 0 <= i < setup.0.len()
                        && !(#[trigger] out.candidates@[i]).elected
                        ==> out.candidates@[i].round == 0
                    &&& forall|i: int, j: int|
                        #![trigger out.candidates@[i], out.candidates@[j]]
                        0 <= i < j < setup.0.len() && out.candidates@[i].elected
                            && out.candidates@[j].elected ==> out.candidates@[i].round
                            != out.candidates@[j].round
                    &&& chain_ok(setup.0, setup.1, out.round_states@)
                    &&& out.result.winners@.len() <= out.round_states@.len()
                    &&& out.round_states@.len() <= out.result.winners@.len() + 1
                    &&& (out.round_states@.len() > out.result.winners@.len()
                        ==> out.round_states@.last().winner < 0)
                    &&& count_round_starts(out.traces@) == out.round_states@.len()
                    &&& forall|k: int| 0 <= k < out.result.winners@.len() ==> {
                        let st = #[trigger] out.round_states@[k];
                        &&& st.winner >= 0
                        &&& out.result.winners@[k].0 == st.cands[st.winner].who
                        &&& ({
                            let i = find_round(out.candidates@, k + 1);
                            &&& 0 <= i < out.candidates@.len()
                            &&& out.candidates@[i].who == st.cands[st.winner].who
                            &&& out.candidates@[i].score == st.cands[st.winner].score
                        })
                    }
                    &&& out.voters@.len() == setup.1.len()
                    &&& forall|v: int| 0 <= v < setup.1.len() ==> {
                        let vm = (#[trigger] out.voters@[v])@;
                        &&& vm.who == setup.1[v].who
                        &&& vm.stake == setup.1[v].stake
                        &&& vm.edges.len() == setup.1[v].edges.len()
                        &&& forall|k: int| 0 <= k < vm.edges.len()
                            ==> (#[trigger] vm.edges[k]).candidate == setup.1[v].edges[k].candidate
                                && vm.edges[k].candidate_index
                                == setup.1[v].edges[k].candidate_index
                    }
                    &&& (!out.saturated ==> forall|v: int| 0 <= v < setup.1.len()
                        ==> loads_balanced(out.candidates@, (#[trigger] out.voters@[v])@)
                            && loads_finite(out.voters@[v]@))
                    &&& (!out.saturated ==> forall|v: int| 0 <= v < setup.1.len()
                        && has_elected_edge(out.candidates@, (#[trigger] out.voters@[v])@.edges)
                        ==> sum_elected_weights(out.candidates@, out.voters@[v]@.edges)
                            == out.voters@[v]@.stake)
                    &&& forall|v: int| 0 <= v < setup.1.len() ==> voter_weights_ok(
                        out.candidates@,
                        (#[trigger] out.voters@[v])@,
                    )
                    &&& forall|i: int| 0 <= i < setup.0.len() ==> {
                        let c = #[trigger] out.candidates@[i];
                        c.backed_stake == if c.elected {
                            backed_sum(0, models(out.voters@), i) as u128
                        } else {
                            0u128
                        }
                    }
                    &&& out.traces@.len() >= 3
                    &&& out.traces@[0] == PhragmenTrace::Start
                    &&& out.traces@[1] == PhragmenTrace::ToElect(to_elect)
                    &&& out.traces@.last() == PhragmenTrace::Finish
                },
            }
        }

/// The Sequential Phragmén election with tracing.
///
/// Builds the candidate pool (duplicates dropped, first occurrence
/// wins) and the voters (unknown approvals silently dropped), then
/// elects `min(to_elect, pool size)` candidates round by round — each
/// round scoring every candidate, electing the smallest-scored one with
/// ties broken by the smaller account, and redistributing loads — and
/// finally back-assigns each voter's stake over its elected edges.
///
/// Fails with `EngineDegenerate` exactly when `to_elect > 0` and no
/// candidate has positive approval stake.  `saturated` reports whether
/// any rational arithmetic saturated; when it is false, the winner
/// count is exactly `min(to_elect, positive-approval candidates)`,
/// every voter's load equals the sum of its elected-edge loads, and
/// every voter with an elected approval has its full stake applied.
pub fn seq_phragmen(
    to_elect: usize,
    candidate_ids: &Vec<AccountId>,
    voters_in: &Vec<(AccountId, u64, Vec<AccountId>)>,
) -> (r: Result<PhragmenOutputs, ElectionsError>)
    ensures
        engine_post(to_elect, candidate_ids@, voters_in@, r),
{
    let mut cands = setup_candidates(candidate_ids);
    let ghost pool = pool_ids(candidate_ids@);
    proof {
        lemma_pool_ids_distinct(candidate_ids@);
        assert(cands@ =~= initial_candidates(candidate_ids@));
    }
    let n0 = cands.len();
    let mut voters = setup_voters(voters_in, &mut cands);
    let ghost cands0 = setup_state(candidate_ids@, voters_in@).0;
    let ghost vms0 = setup_state(candidate_ids@, voters_in@).1;
    proof {
        assert(initial_candidates(candidate_ids@).len() == n0);
        lemma_sv_voters_preserves(initial_candidates(candidate_ids@), voters_in@, Seq::empty());
        assert(cands@ == cands0);
        assert(voters@.len() == vms0.len());
        assert forall|i: int| 0 <= i < cands0.len() implies {
            let c = #[trigger] cands0[i];
            c.who == init_candidate(pool[i]).who && c.score == init_candidate(pool[i]).score
                && c.elected == init_candidate(pool[i]).elected && c.round == init_candidate(
                pool[i],
            ).round && c.backed_stake == init_candidate(pool[i]).backed_stake
        } by {
            assert(initial_candidates(candidate_ids@)[i] == init_candidate(pool[i]));
            assert(cands0[i].who == initial_candidates(candidate_ids@)[i].who);
        }
        lemma_counts(cands0);
        assert forall|i: int, j: int| #![trigger cands0[i], cands0[j]]
            0 <= i < j < cands0.len() implies cands0[i].who != cands0[j].who by {
            assert(cands0[i].who == initial_candidates(candidate_ids@)[i].who);
            assert(cands0[j].who == initial_candidates(candidate_ids@)[j].who);
            assert(initial_candidates(candidate_ids@)[i].who == pool[i]);
            assert(initial_candidates(candidate_ids@)[j].who == pool[j]);
        }
    }
    // degenerate input: nobody has approval stake, yet seats are wanted
    let mut any_positive = false;
    let mut di: usize = 0;
    while di < cands.len()
        invariant
            di <= cands@.len(),
            any_positive <==> exists|j: int|
                0 <= j < di && (#[trigger] cands@[j]).approval_stake > 0,
        decreases cands@.len() - di,
    {
        if cands[di].approval_stake > 0 {
            proof {
                assert(cands@[di as int].approval_stake > 0);
            }
            any_positive = true;
        }
        di = di + 1;
    }
    proof {
        lemma_count_positive_zero(cands0);
        lemma_counts(cands0);
        if !any_positive {
            assert forall|i: int| 0 <= i < cands0.len()
                implies (#[trigger] cands0[i]).approval_stake == 0 by {
                if cands@[i].approval_stake > 0 {
                    assert(false);
                }
            }
            assert(count_positive(cands0) == 0);
        } else {
            let j = choose|j: int| 0 <= j < cands@.len()
                && (#[trigger] cands@[j]).approval_stake > 0;
            if count_positive(cands0) == 0 {
                assert(cands0[j].approval_stake == 0);
                assert(false);
            }
        }
    }
    if to_elect > 0 && !any_positive {
        return Err(ElectionsError::EngineDegenerate);
    }
    let mut traces: Vec<PhragmenTrace> = Vec::new();
    let ghost tr0 = traces@;
    traces.push(PhragmenTrace::Start);
    let ghost tr1 = traces@;
    traces.push(PhragmenTrace::ToElect(to_elect));
    proof {
        lemma_count_rs_push(tr0, PhragmenTrace::Start);
        lemma_count_rs_push(tr1, PhragmenTrace::ToElect(to_elect));
    }
    let n = cands.len();
    let rounds_total = if to_elect < n {
        to_elect
    } else {
        n
    };
    let mut sat = false;
    let mut ec: usize = 0;
    let mut stopped_early = false;
    let ghost mut round_states: Seq<RoundState> = Seq::empty();
    proof {
        assert forall|v: int| 0 <= v < voters@.len()
            implies #[trigger] models(voters@)[v] == vms0[v] by {
            assert(models(voters@)[v] == voters@[v]@);
        }
        assert(models(voters@) =~= vms0);
        assert forall|v: int| 0 <= v < voters@.len() implies loads_balanced(
            cands@,
            (#[trigger] voters@[v])@,
        ) && loads_finite(voters@[v]@) by {
            let vm = voters@[v]@;
            assert forall|i: int| 0 <= i < cands@.len()
                implies !(#[trigger] cands@[i]).elected by {
                assert(cands0[i].elected == init_candidate(pool[i]).elected);
            }
            lemma_sum_elected_loads_none(cands@, vm.edges);
        }
    }
    while ec < rounds_total
        invariant_except_break
            ec <= rounds_total,
            rounds_total <= to_elect,
            rounds_total == if to_elect < n { to_elect as int } else { n as int },
            n == cands0.len(),
            cands@.len() == n,
            voters@.len() == vms0.len(),
            !stopped_early,
            cands0 == setup_state(candidate_ids@, voters_in@).0,
            vms0 == setup_state(candidate_ids@, voters_in@).1,
            forall|i: int, j: int| #![trigger cands0[i], cands0[j]]
                0 <= i < j < cands0.len() ==> cands0[i].who != cands0[j].who,
            cands_state_ok(cands0, cands@, ec as int),
            forall|v: int| 0 <= v < voters@.len() ==> voter_state_ok(
                vms0,
                cands@,
                (#[trigger] voters@[v])@,
                v,
            ),
            !sat ==> forall|v: int| 0 <= v < voters@.len() ==> loads_balanced(
                cands@,
                (#[trigger] voters@[v])@,
            ) && loads_finite(voters@[v]@),
            traces@.len() >= 2,
            traces@[0] == PhragmenTrace::Start,
            traces@[1] == PhragmenTrace::ToElect(to_elect),
            round_states.len() == ec,
            chain_ok(cands0, vms0, round_states),
            forall|k: int| 0 <= k < ec ==> {
                let st = #[trigger] round_states[k];
                &&& st.winner >= 0
                &&& st.winner < n
                &&& st.cands.len() == n
                &&& cands@[st.winner].elected
                &&& cands@[st.winner].round == k + 1
                &&& cands@[st.winner].who == st.cands[st.winner].who
                &&& cands@[st.winner].score == st.cands[st.winner].score
            },
            cands@ == round_input(cands0, vms0, round_states, ec as int).0,
            models(voters@) == round_input(cands0, vms0, round_states, ec as int).1,
            count_round_starts(traces@) == ec,
        ensures
            ec <= rounds_total,
            n == cands0.len(),
            cands@.len() == n,
            voters@.len() == vms0.len(),
            cands0 == setup_state(candidate_ids@, voters_in@).0,
            vms0 == setup_state(candidate_ids@, voters_in@).1,
            cands_state_ok(cands0, cands@, ec as int),
            forall|v: int| 0 <= v < voters@.len() ==> voter_state_ok(
                vms0,
                cands@,
                (#[trigger] voters@[v])@,
                v,
            ),
            !sat ==> forall|v: int| 0 <= v < voters@.len() ==> loads_balanced(
                cands@,
                (#[trigger] voters@[v])@,
            ) && loads_finite(voters@[v]@),
            traces@.len() >= 2,
            traces@[0] == PhragmenTrace::Start,
            traces@[1] == PhragmenTrace::ToElect(to_elect),
            stopped_early && !sat ==> ec as int == (if to_elect <= count_positive(cands0) {
                to_elect as int
            } else {
                count_positive(cands0)
            }),
            !stopped_early ==> ec == rounds_total,
            chain_ok(cands0, vms0, round_states),
            !stopped_early ==> round_states.len() == ec,
            stopped_early ==> round_states.len() == ec + 1 && round_states.last().winner < 0,
            count_round_starts(traces@) == round_states.len(),
            forall|k: int| 0 <= k < ec ==> {
                let st = #[trigger] round_states[k];
                &&& st.winner >= 0
                &&& st.winner < n
                &&& st.cands.len() == n
                &&& cands@[st.winner].elected
                &&& cands@[st.winner].round == k + 1
                &&& cands@[st.winner].who == st.cands[st.winner].who
                &&& cands@[st.winner].score == st.cands[st.winner].score
            },
        decreases rounds_total - ec,
    {
        let rr = ec + 1;
        let ghost cands_pre = cands@;
        let cs = clone_candidates(&cands);
        let vs_snap = clone_voters(&voters);
        let ghost tr_rs = traces@;
        traces.push(PhragmenTrace::RoundStart(rr, cs, vs_snap));
        let ghost tr_m1 = traces@;
        traces.push(PhragmenTrace::ComputeCandidateScores);
        proof {
            lemma_count_rs_push(tr_rs, PhragmenTrace::RoundStart(rr, cs, vs_snap));
            lemma_count_rs_push(tr_m1, PhragmenTrace::ComputeCandidateScores);
        }
        let ghost tr_a = traces@;
        compute_base_scores(&mut cands, &mut traces);
        proof {
            lemma_prefix_index(tr_a, traces@, 0);
            lemma_prefix_index(tr_a, traces@, 1);
            lemma_count_rs_extend(tr_a, traces@);
        }
        let cs2 = clone_candidates(&cands);
        let ghost tr_m2 = traces@;
        traces.push(PhragmenTrace::CandidateScoresCalculated(cs2));
        let ghost tr_m3 = traces@;
        traces.push(PhragmenTrace::IncCandidateScoresByVoters);
        proof {
            lemma_count_rs_push(tr_m2, PhragmenTrace::CandidateScoresCalculated(cs2));
            lemma_count_rs_push(tr_m3, PhragmenTrace::IncCandidateScoresByVoters);
        }
        proof {
            // phase A keeps everything but the scores of unelected candidates
            assert forall|i: int| 0 <= i < n implies {
                let c = #[trigger] cands@[i];
                c.who == cands_pre[i].who && c.approval_stake == cands_pre[i].approval_stake
                    && c.elected == cands_pre[i].elected && c.round == cands_pre[i].round
                    && c.backed_stake == cands_pre[i].backed_stake && c.score.wf()
                    && (!c.elected && c.approval_stake > 0 ==> !c.score.spec_is_infinite())
            } by {
                assert(cands@[i] == phase_a_candidate(cands_pre[i]));
            }
            lemma_counts_same(cands_pre, cands@);
            assert forall|r2: int| 1 <= r2 <= ec implies round_filled(cands@, r2) by {
                assert(round_filled(cands_pre, r2));
                let j = choose|j: int| 0 <= j < cands_pre.len()
                    && (#[trigger] cands_pre[j]).elected && cands_pre[j].round == r2;
                assert(cands@[j].elected && cands@[j].round == r2);
            }
            assert forall|v: int| 0 <= v < voters@.len() implies voter_state_ok(
                vms0,
                cands@,
                (#[trigger] voters@[v])@,
                v,
            ) by {
                lemma_voter_state_transfer(vms0, cands_pre, cands@, voters@[v]@, v);
            }
            if !sat {
                assert forall|v: int| 0 <= v < voters@.len() implies loads_balanced(
                    cands@,
                    (#[trigger] voters@[v])@,
                ) && loads_finite(voters@[v]@) by {
                    lemma_balance_same_elected(cands_pre, cands@, voters@[v]@);
                }
            }
        }
        let ghost cands_a = cands@;
        let ghost sat_a = sat;
        let ghost tr_b = traces@;
        augment_scores(&mut cands, &voters, &mut traces, &mut sat);
        proof {
            lemma_prefix_index(tr_b, traces@, 0);
            lemma_prefix_index(tr_b, traces@, 1);
            lemma_count_rs_extend(tr_b, traces@);
        }
        let cs3 = clone_candidates(&cands);
        let ghost tr_m4 = traces@;
        traces.push(PhragmenTrace::CandidateScoresUpdatedByVoters(cs3));
        proof {
            lemma_count_rs_push(tr_m4, PhragmenTrace::CandidateScoresUpdatedByVoters(cs3));
        }
        proof {
            // phase B keeps everything but the scores of unelected candidates
            assert forall|i: int| 0 <= i < n implies {
                let c = #[trigger] cands@[i];
                c.who == cands_a[i].who && c.approval_stake == cands_a[i].approval_stake
                    && c.elected == cands_a[i].elected && c.round == cands_a[i].round
                    && c.backed_stake == cands_a[i].backed_stake && c.score.wf()
            } by {
                if !cands_a[i].elected {
                    lemma_augmented_score_wf(cands_a[i].score, models(voters@), i);
                }
            }
            lemma_counts_same(cands_a, cands@);
            assert forall|r2: int| 1 <= r2 <= ec implies round_filled(cands@, r2) by {
                assert(round_filled(cands_a, r2));
                let j = choose|j: int| 0 <= j < cands_a.len()
                    && (#[trigger] cands_a[j]).elected && cands_a[j].round == r2;
                assert(cands@[j].elected && cands@[j].round == r2);
            }
            assert forall|v: int| 0 <= v < voters@.len() implies voter_state_ok(
                vms0,
                cands@,
                (#[trigger] voters@[v])@,
                v,
            ) by {
                lemma_voter_state_transfer(vms0, cands_a, cands@, voters@[v]@, v);
            }
            if !sat {
                assert(!sat_a);
                assert forall|v: int| 0 <= v < voters@.len() implies loads_balanced(
                    cands@,
                    (#[trigger] voters@[v])@,
                ) && loads_finite(voters@[v]@) by {
                    lemma_balance_same_elected(cands_a, cands@, voters@[v]@);
                }
            }
        }
        let ghost input_now = round_input(cands0, vms0, round_states, ec as int);
        proof {
            // the scoring phases realized the chain's recomputation step
            assert(input_now.0 == cands_pre);
            assert(input_now.1 == models(voters@));
            assert forall|i: int| 0 <= i < n implies cands@[i] == scores_recomputed(
                input_now.0,
                input_now.1,
            )[i] by {
                assert(cands_a[i] == phase_a_candidate(cands_pre[i]));
                if !cands_pre[i].elected {
                    assert(cands@[i] == (Candidate {
                        score: augmented_score(cands_a[i].score, models(voters@), i),
                        ..cands_a[i]
                    }));
                }
            }
            assert(cands@ =~= scores_recomputed(input_now.0, input_now.1));
            // elected records pass through the phases untouched
            assert forall|k: int| 0 <= k < ec implies {
                let st = #[trigger] round_states[k];
                cands@[st.winner].elected && cands@[st.winner].round == k + 1
                    && cands@[st.winner].who == st.cands[st.winner].who
                    && cands@[st.winner].score == st.cands[st.winner].score
            } by {
                let st = round_states[k];
                assert(cands_a[st.winner] == phase_a_candidate(cands_pre[st.winner]));
                assert(cands_pre[st.winner].elected);
                assert(cands@[st.winner] == cands_a[st.winner]);
            }
        }
        // phase C: pick the best candidate, or stop when none is electable
        let choice = find_best(&cands);
        match choice {
            None => {
                proof {
                    if !sat {
                        assert forall|i: int| 0 <= i < n
                            && (#[trigger] cands@[i]).approval_stake > 0
                            implies cands@[i].elected by {
                            if !cands@[i].elected {
                                assert(!cands_a[i].elected);
                                assert(!cands_a[i].score.spec_is_infinite());
                                assert(!cands@[i].score.spec_is_infinite());
                                assert(electable(cands@[i]));
                                assert(false);
                            }
                        }
                        lemma_counts(cands@);
                        lemma_count_positive_same(cands0, cands@);
                        assert(count_elected(cands@) == count_positive(cands@));
                        assert(ec as int == count_positive(cands0));
                    }
                }
                proof {
                    let st = RoundState { cands: cands@, voters: input_now.1, winner: -1 };
                    let prior = round_states;
                    round_states = round_states.push(st);
                    lemma_chain_push(cands0, vms0, prior, st, cands_pre, models(voters@));
                }
                stopped_early = true;
                break;
            }
            Some(w) => {
                proof {
                    let st = RoundState {
                        cands: cands@,
                        voters: input_now.1,
                        winner: w as int,
                    };
                    let prior = round_states;
                    round_states = round_states.push(st);
                    lemma_chain_push(cands0, vms0, prior, st, cands_pre, models(voters@));
                }
                let c = cands[w];
                let elected_c = Candidate { elected: true, round: rr, ..c };
                let ghost cands_b = cands@;
                cands.set(w, elected_c);
                let ghost tr_el = traces@;
                traces.push(PhragmenTrace::CandidateElected(elected_c));
                proof {
                    lemma_count_rs_push(tr_el, PhragmenTrace::CandidateElected(elected_c));
                }
                ec = ec + 1;
                proof {
                    lemma_counts_elect(cands_b, cands@, w as int);
                    assert forall|r2: int| 1 <= r2 <= ec implies round_filled(cands@, r2) by {
                        if r2 == ec {
                            assert(cands@[w as int].elected && cands@[w as int].round == r2);
                        } else {
                            assert(round_filled(cands_b, r2));
                            let j = choose|j: int| 0 <= j < cands_b.len()
                                && (#[trigger] cands_b[j]).elected && cands_b[j].round == r2;
                            assert(j != w);
                            assert(cands@[j].elected && cands@[j].round == r2);
                        }
                    }
                    assert forall|v: int| 0 <= v < voters@.len() implies voter_state_ok(
                        vms0,
                        cands@,
                        (#[trigger] voters@[v])@,
                        v,
                    ) by {
                        lemma_voter_state_after_elect(
                            vms0, cands_b, cands@, voters@[v]@, v, w as int,
                        );
                    }
                    if !sat {
                        assert forall|v: int| 0 <= v < voters@.len() implies loads_balanced(
                            cands@,
                            (#[trigger] voters@[v])@,
                        ) by {
                            let vm = voters@[v as int]@;
                            assert forall|k: int| 0 <= k < vm.edges.len()
                                && (#[trigger] vm.edges[k]).candidate_index == w as int
                                implies vm.edges[k].load == crate::rational::rat_zero() by {
                                assert(!cands_b[vm.edges[k].candidate_index as int].elected);
                            }
                            assert forall|k: int| 0 <= k < vm.edges.len()
                                implies (#[trigger] vm.edges[k]).load.wf() by {
                            }
                            lemma_sum_elected_loads_elect(
                                cands_b, cands@, vm.edges, w as int,
                            );
                            lemma_sum_elected_loads_pos(cands_b, vm.edges);
                            lemma_sum_elected_loads_pos(cands@, vm.edges);
                            lemma_balance_transfer(
                                vm.load,
                                sum_elected_loads(cands_b, vm.edges),
                                sum_elected_loads(cands@, vm.edges),
                            );
                        }
                    }
                }
                // phase D: redistribute the loads of the winner's approvers
                let ghost vmid = models(voters@);
                let ghost sat_mid = sat;
                let ghost tr_d = traces@;
                distribute_loads(elected_c, w, &mut voters, &mut traces, &mut sat);
                proof {
                    lemma_prefix_index(tr_d, traces@, 0);
                    lemma_prefix_index(tr_d, traces@, 1);
                    lemma_count_rs_extend(tr_d, traces@);
                }
                proof {
                    assert forall|v: int| 0 <= v < voters@.len() implies voter_state_ok(
                        vms0,
                        cands@,
                        (#[trigger] voters@[v])@,
                        v,
                    ) && (!sat ==> loads_balanced(cands@, voters@[v]@) && loads_finite(
                        voters@[v]@,
                    )) by {
                        let vm = vmid[v];
                        let vm2 = voters@[v as int]@;
                        assert(vm2 == distribute_voter(elected_c.score, w as int, vm));
                        assert forall|k: int| 0 <= k < vm.edges.len()
                            implies (#[trigger] vm.edges[k]).load.wf() by {
                        }
                        lemma_distribute_voter_props(elected_c.score, w as int, vm);
                        lemma_find_edge_char(vm.edges, w as int);
                        let k0 = find_edge(vm.edges, w as int);
                        // the voter keeps its structural invariant
                        assert forall|k: int| 0 <= k < vm2.edges.len() implies {
                            let e = #[trigger] vm2.edges[k];
                            &&& e.candidate == vms0[v].edges[k].candidate
                            &&& e.candidate_index == vms0[v].edges[k].candidate_index
                            &&& e.weight == 0
                            &&& e.load.wf()
                            &&& e.candidate_index < cands@.len()
                            &&& cands@[e.candidate_index as int].who == e.candidate
                            &&& (!cands@[e.candidate_index as int].elected ==> e.load
                                == crate::rational::rat_zero())
                        } by {
                            let e = vm2.edges[k];
                            let eo = vm.edges[k];
                            assert(e.candidate == eo.candidate && e.candidate_index
                                == eo.candidate_index && e.weight == eo.weight);
                            if eo.candidate_index != w {
                                assert(e.load == eo.load);
                            }
                        }
                        if !sat {
                            assert(!sat_mid);
                            assert(loads_finite(vm));
                            assert(loads_finite(vm2));
                            if k0 < 0 {
                                assert(vm2 == vm);
                            } else {
                                let nl = elected_c.score.spec_sub_or_zero(vm.load);
                                crate::rational::lemma_cmp_antisym(
                                    elected_c.score, elected_c.score,
                                );
                                lemma_rat_ops_wf(elected_c.score, vm.load, 0);
                                assert(vm.edges[k0].candidate_index == w as int);
                                assert(vm.edges[k0].load == crate::rational::rat_zero());
                                lemma_sum_update_value(cands@, vm.edges, k0, nl);
                                lemma_sum_elected_loads_pos(cands@, vm.edges);
                                assert forall|k: int| 0 <= k < vm2.edges.len()
                                    implies (#[trigger] vm2.edges[k]).load.wf() by {
                                }
                                lemma_sum_elected_loads_pos(cands@, vm2.edges);
                                assert(vm2.edges == vm.edges.update(
                                    k0,
                                    Edge { load: nl, ..vm.edges[k0] },
                                ));
                                lemma_balance_step(
                                    vm.load,
                                    nl,
                                    vm2.load,
                                    sum_elected_loads(cands@, vm.edges),
                                    sum_elected_loads(cands@, vm2.edges),
                                );
                            }
                        }
                    }
                }
                proof {
                    // the exec elect and redistribute steps realized the chain's
                    let st = round_states[ec - 1];
                    assert(st == round_states.last());
                    assert(st.cands == cands_b);
                    assert(st.winner == w as int);
                    assert(elected_c == (Candidate {
                        elected: true,
                        round: ((ec as int) as usize),
                        ..st.cands[w as int]
                    }));
                    assert(cands@ =~= elect_candidate(st.cands, st.winner, ec as int));
                    assert(vmid == input_now.1);
                    assert forall|v: int| 0 <= v < voters@.len()
                        implies #[trigger] models(voters@)[v] == distribute_all(
                        st.cands[st.winner].score,
                        st.winner,
                        st.voters,
                    )[v] by {
                        assert(models(voters@)[v] == voters@[v]@);
                        assert(voters@[v]@ == distribute_voter(
                            elected_c.score,
                            w as int,
                            vmid[v],
                        ));
                        assert(vmid[v] == st.voters[v]);
                        assert(elected_c.score == st.cands[st.winner].score);
                    }
                    assert(models(voters@) =~= distribute_all(
                        st.cands[st.winner].score,
                        st.winner,
                        st.voters,
                    ));
                    assert forall|k: int| 0 <= k < ec implies {
                        let stk = #[trigger] round_states[k];
                        &&& stk.winner >= 0
                        &&& stk.winner < n
                        &&& stk.cands.len() == n
                        &&& cands@[stk.winner].elected
                        &&& cands@[stk.winner].round == k + 1
                        &&& cands@[stk.winner].who == stk.cands[stk.winner].who
                        &&& cands@[stk.winner].score == stk.cands[stk.winner].score
                    } by {
                        let stk = round_states[k];
                        if k < ec - 1 {
                            assert(cands_b[stk.winner].elected);
                            assert(stk.winner != w as int);
                            assert(cands@[stk.winner] == cands_b[stk.winner]);
                        }
                    }
                }
            }
        }
    }
    proof {
        if !stopped_early && !sat {
            lemma_counts(cands@);
            lemma_count_positive_same(cands0, cands@);
            assert(ec as int <= count_positive(cands0));
            assert(count_positive(cands0) <= cands0.len());
            assert(ec == rounds_total);
            if to_elect <= count_positive(cands0) {
                // with enough positive candidates, every wanted seat fills
                assert(rounds_total == to_elect);
                assert(ec == to_elect);
            } else {
                // fewer positive candidates than seats: all of them get in
                if to_elect < n {
                    assert(rounds_total == to_elect);
                    assert(false);
                }
                assert(rounds_total == n);
                assert(ec as int == count_positive(cands0));
            }
        }
    }
    let ghost tr_fin = traces@;
    traces.push(PhragmenTrace::Finish);
    proof {
        lemma_count_rs_push(tr_fin, PhragmenTrace::Finish);
    }
    // post-processing: stake back-assignment
    let ghost cands_final = cands@;
    let ghost vms_mid = models(voters@);
    let ghost sat_rounds = sat;
    let mut wv: usize = 0;
    while wv < voters.len()
        invariant
            sat_rounds ==> sat,
            wv <= voters@.len(),
            voters@.len() == vms_mid.len(),
            cands@ == cands_final,
            forall|v: int| wv <= v < voters@.len() ==> (#[trigger] voters@[v])@ == vms_mid[v],
            forall|v: int| 0 <= v < wv ==> {
                let vm = (#[trigger] voters@[v])@;
                let vmo = vms_mid[v];
                &&& vm.who == vmo.who
                &&& vm.stake == vmo.stake
                &&& vm.load == vmo.load
                &&& vm.edges.len() == vmo.edges.len()
                &&& forall|k: int| 0 <= k < vm.edges.len()
                    ==> (#[trigger] vm.edges[k]).candidate == vmo.edges[k].candidate
                        && vm.edges[k].candidate_index == vmo.edges[k].candidate_index
                        && vm.edges[k].load == vmo.edges[k].load
            },
            forall|v: int| 0 <= v < vms_mid.len() ==> {
                let vmo = #[trigger] vms_mid[v];
                &&& vmo.load.wf()
                &&& forall|k: int| 0 <= k < vmo.edges.len()
                    ==> ((#[trigger] vmo.edges[k]).load.wf() && vmo.edges[k].candidate_index
                        < cands_final.len() && vmo.edges[k].weight == 0)
            },
            forall|v: int| 0 <= v < wv ==> voter_weights_ok(
                cands_final,
                (#[trigger] voters@[v])@,
            ),
            !sat ==> forall|v: int| 0 <= v < vms_mid.len() ==> loads_balanced(
                cands_final,
                #[trigger] vms_mid[v],
            ),
            !sat ==> forall|v: int| 0 <= v < wv && has_elected_edge(
                cands_final,
                (#[trigger] voters@[v])@.edges,
            ) ==> sum_elected_weights(cands_final, voters@[v]@.edges) == voters@[v]@.stake,
        decreases voters@.len() - wv,
    {
        let ghost sat_before = sat;
        let nv = weigh_voter(&cands, &voters[wv], &mut sat);
        proof {
            assert(voters@[wv as int]@ == vms_mid[wv as int]);
        }
        voters.set(wv, nv);
        proof {
            assert forall|v: int| 0 <= v < wv + 1 implies voter_weights_ok(
                cands_final,
                (#[trigger] voters@[v])@,
            ) by {
                if v < wv {
                } else {
                    let vm2 = voters@[v]@;
                    assert(vm2 == nv@);
                    let vmo = vms_mid[wv as int];
                    assert forall|k: int| 0 <= k < vm2.edges.len() && !(#[trigger] edge_elected(
                        cands_final,
                        vm2.edges,
                        k,
                    )) implies vm2.edges[k].weight == 0 by {
                        assert(vm2.edges[k].candidate_index == vmo.edges[k].candidate_index);
                        assert(!cands_final[vmo.edges[k].candidate_index as int].elected);
                        assert(vm2.edges[k].weight == vmo.edges[k].weight);
                    }
                    if has_elected_edge(cands_final, vm2.edges) {
                        let k0 = choose|k: int|
                            0 <= k < vm2.edges.len() && (#[trigger] vm2.edges[k]).candidate_index
                                < cands_final.len()
                                && cands_final[vm2.edges[k].candidate_index as int].elected;
                        assert(vmo.edges[k0].candidate_index == vm2.edges[k0].candidate_index);
                        assert(has_elected_edge(cands_final, vmo.edges));
                        assert(exists|l: int| #[trigger] weights_assigned(
                            cands_final,
                            vm2.edges,
                            vm2.stake,
                            vm2.load,
                            l,
                        ));
                    }
                    assert(voter_weights_ok(cands_final, vm2));
                }
            }
            if !sat {
                assert(!sat_before);
                if has_elected_edge(cands_final, vms_mid[wv as int].edges) {
                    assert(sum_elected_weights(cands_final, nv@.edges)
                        == vms_mid[wv as int].stake);
                }
                assert forall|v: int| 0 <= v < wv + 1 && has_elected_edge(
                    cands_final,
                    (#[trigger] voters@[v])@.edges,
                ) implies sum_elected_weights(cands_final, voters@[v]@.edges)
                    == voters@[v]@.stake by {
                    if v < wv {
                    } else {
                        let vm2 = voters@[v]@;
                        assert(vm2 == nv@);
                        if !has_elected_edge(cands_final, vms_mid[v].edges) {
                            let k = choose|k: int|
                                0 <= k < vm2.edges.len() && (#[trigger] vm2.edges[k])
                                    .candidate_index < cands_final.len()
                                    && cands_final[vm2.edges[k].candidate_index as int].elected;
                            assert(vms_mid[v].edges[k].candidate_index
                                == vm2.edges[k].candidate_index);
                            assert(has_elected_edge(cands_final, vms_mid[v].edges));
                            assert(false);
                        }
                    }
                }
            }
        }
        wv = wv + 1;
    }
    let ghost voters_weighted = models(voters@);
    set_backed_stakes(&mut cands, &voters);
    proof {
        // backing changes only `backed_stake`, so sums and flags carry over
        assert forall|i: int| 0 <= i < n implies (#[trigger] cands@[i]).elected
            == cands_final[i].elected && cands@[i].who == cands_final[i].who
            && cands@[i].approval_stake == cands_final[i].approval_stake
            && cands@[i].round == cands_final[i].round
            && cands@[i].score == cands_final[i].score by {
            if cands_final[i].elected {
                assert(cands@[i] == (Candidate {
                    backed_stake: backed_sum(0, models(voters@), i) as u128,
                    ..cands_final[i]
                }));
            }
        }
        lemma_counts_same(cands_final, cands@);
        assert forall|r2: int| 1 <= r2 <= ec implies round_filled(cands@, r2) by {
            assert(round_filled(cands_final, r2));
            let j = choose|j: int| 0 <= j < cands_final.len()
                && (#[trigger] cands_final[j]).elected && cands_final[j].round == r2;
            assert(cands@[j].elected && cands@[j].round == r2);
        }
    }
    let winners = build_winners(&cands, ec);
    proof {
        if !sat {
            assert forall|v: int| 0 <= v < voters@.len() implies loads_balanced(
                cands@,
                (#[trigger] voters@[v])@,
            ) by {
                let vm = voters@[v]@;
                let vmo = vms_mid[v];
                lemma_sum_loads_same(cands_final, vmo.edges, vm.edges);
                assert(loads_balanced(cands_final, vmo));
                lemma_balance_same_elected(cands_final, cands@, vm);
                assert(sum_elected_loads(cands_final, vm.edges)
                    == sum_elected_loads(cands_final, vmo.edges));
            }
            assert forall|v: int| 0 <= v < voters@.len() && has_elected_edge(
                cands@,
                (#[trigger] voters@[v])@.edges,
            ) implies sum_elected_weights(cands@, voters@[v]@.edges) == voters@[v]@.stake by {
                let vm = voters@[v]@;
                lemma_sum_weights_same_elected(cands_final, cands@, vm.edges);
                if !has_elected_edge(cands_final, vm.edges) {
                    let k = choose|k: int|
                        0 <= k < vm.edges.len() && (#[trigger] vm.edges[k]).candidate_index
                            < cands@.len()
                            && cands@[vm.edges[k].candidate_index as int].elected;
                    assert(has_elected_edge(cands_final, vm.edges));
                    assert(false);
                }
            }
        }
    }
    proof {
        // the voters keep their setup identity and edge shape
        assert forall|v: int| 0 <= v < voters@.len() implies {
            let vm = (#[trigger] voters@[v])@;
            &&& vm.who == vms0[v].who
            &&& vm.stake == vms0[v].stake
            &&& vm.edges.len() == vms0[v].edges.len()
            &&& forall|k: int| 0 <= k < vm.edges.len()
                ==> (#[trigger] vm.edges[k]).candidate == vms0[v].edges[k].candidate
                    && vm.edges[k].candidate_index == vms0[v].edges[k].candidate_index
        } by {
            let vm = voters@[v]@;
            let vmo = vms_mid[v];
            assert(voter_state_ok(vms0, cands_final, vmo, v));
            assert forall|k: int| 0 <= k < vm.edges.len()
                implies (#[trigger] vm.edges[k]).candidate == vms0[v].edges[k].candidate
                    && vm.edges[k].candidate_index == vms0[v].edges[k].candidate_index by {
                assert(vm.edges[k].candidate == vmo.edges[k].candidate);
                assert(vmo.edges[k].candidate == vms0[v].edges[k].candidate);
            }
        }
        assert forall|v: int| 0 <= v < voters@.len() implies voter_weights_ok(
            cands@,
            (#[trigger] voters@[v])@,
        ) by {
            assert(voter_weights_ok(cands_final, voters@[v]@));
            lemma_voter_weights_transfer(cands_final, cands@, voters@[v]@);
        }
        if !sat {
            assert(!sat_rounds);
            assert forall|v: int| 0 <= v < voters@.len()
                implies loads_finite((#[trigger] voters@[v])@) by {
                let vm = voters@[v]@;
                let vmo = vms_mid[v];
                assert(loads_finite(vmo));
                assert(vm.load == vmo.load);
                assert forall|k: int| 0 <= k < vm.edges.len()
                    implies !(#[trigger] vm.edges[k]).load.spec_is_infinite() by {
                    assert(vm.edges[k].load == vmo.edges[k].load);
                    assert(!vmo.edges[k].load.spec_is_infinite());
                }
            }
        }
        // elected status matches the round range
        assert forall|i: int| 0 <= i < n implies ((#[trigger] cands@[i]).elected <==> 1
            <= cands@[i].round <= ec) by {
            assert(cands_final[i].elected == cands@[i].elected);
            assert(cands_final[i].round == cands@[i].round);
        }
        assert forall|i: int| 0 <= i < n && !(#[trigger] cands@[i]).elected
            implies cands@[i].round == 0 by {
            assert(cands_final[i].elected == cands@[i].elected);
            assert(cands_final[i].round == cands@[i].round);
        }
        // rounds of elected candidates stay distinct through the backing pass
        assert forall|i: int, j: int| #![trigger cands@[i], cands@[j]]
            0 <= i < j < n && cands@[i].elected && cands@[j].elected
            implies cands@[i].round != cands@[j].round by {
            assert(cands_final[i].elected == cands@[i].elected);
            assert(cands_final[j].elected == cands@[j].elected);
            assert(cands_final[i].round == cands@[i].round);
            assert(cands_final[j].round == cands@[j].round);
        }
        lemma_counts_same(cands_final, cands@);
        // each recorded round's winner is the final record of that round
        assert forall|k: int| 0 <= k < ec implies {
            let st = #[trigger] round_states[k];
            &&& st.winner >= 0
            &&& winners@[k].0 == st.cands[st.winner].who
            &&& ({
                let i = find_round(cands@, k + 1);
                &&& 0 <= i < cands@.len()
                &&& cands@[i].who == st.cands[st.winner].who
                &&& cands@[i].score == st.cands[st.winner].score
            })
        } by {
            let st = round_states[k];
            assert(cands_final[st.winner].elected && cands_final[st.winner].round == k + 1);
            assert(cands@[st.winner].elected == cands_final[st.winner].elected);
            assert(cands@[st.winner].round == cands_final[st.winner].round);
            assert(cands@[st.winner].who == cands_final[st.winner].who);
            assert(cands@[st.winner].score == cands_final[st.winner].score);
            lemma_find_round_char(cands@, k + 1);
            assert(round_filled(cands@, k + 1));
            let i = find_round(cands@, k + 1);
            assert(i >= 0);
            if i != st.winner {
                assert(cands@[i].elected && cands@[i].round == k + 1);
                assert(false);
            }
            assert(winner_entry_ok(cands@, winners@[k], k));
            assert(winners@[k].0 == cands@[i].who);
        }
        if !sat {
            assert(!sat_rounds);
            assert(ec as int == if to_elect <= count_positive(cands0) {
                to_elect as int
            } else {
                count_positive(cands0)
            });
        }
    }
    Ok(
        PhragmenOutputs {
            result: ElectionResult { winners },
            candidates: cands,
            voters,
            traces,
            saturated: sat,
            round_states: Ghost(round_states),
        },
    )
}

/// Bridges the take-prefix form of the phase-B inner invariant across
/// one edge step.
proof fn lemma_augment_edges_take_step(
    cands_enter: Seq<Candidate>,
    cands_now: Seq<Candidate>,
    vload: Rational128,
    vstake: u64,
    edges: Seq<Edge>,
    k: int,
    n: int,
)
    requires
        0 < k <= edges.len(),
        cands_enter.len() == n,
        cands_now.len() == n,
        forall|i: int| 0 <= i < n && !(#[trigger] cands_enter[i]).elected ==> cands_now[i]
            == (Candidate {
            score: ({
                let prev = augment_edges(
                    cands_enter[i].score,
                    vload,
                    vstake,
                    edges.take(k - 1),
                    i,
                );
                if edges[k - 1].candidate_index == i {
                    prev.spec_add(vload.spec_mul_u128(vstake as u128))
                } else {
                    prev
                }
            }),
            ..cands_enter[i]
        }),
    ensures
        forall|i: int| 0 <= i < n && !(#[trigger] cands_enter[i]).elected ==> cands_now[i]
            == (Candidate {
            score: augment_edges(cands_enter[i].score, vload, vstake, edges.take(k), i),
            ..cands_enter[i]
        }),
{
    assert forall|i: int| 0 <= i < n && !(#[trigger] cands_enter[i]).elected
        implies cands_now[i] == (Candidate {
        score: augment_edges(cands_enter[i].score, vload, vstake, edges.take(k), i),
        ..cands_enter[i]
    }) by {
        lemma_augment_edges_snoc(cands_enter[i].score, vload, vstake, edges.take(k), i);
        assert(edges.take(k).drop_last() =~= edges.take(k - 1));
        assert(edges.take(k).last() == edges[k - 1]);
    }
}

/// Unrolls `augment_edges` at the back of the edge list.
proof fn lemma_augment_edges_snoc(
    s: Rational128,
    vload: Rational128,
    vstake: u64,
    edges: Seq<Edge>,
    i: int,
)
    requires
        edges.len() > 0,
    ensures
        augment_edges(s, vload, vstake, edges, i) == ({
            let prev = augment_edges(s, vload, vstake, edges.drop_last(), i);
            if edges.last().candidate_index == i {
                prev.spec_add(vload.spec_mul_u128(vstake as u128))
            } else {
                prev
            }
        }),
    decreases edges.len(),
{
    let s1 = if edges[0].candidate_index == i {
        s.spec_add(vload.spec_mul_u128(vstake as u128))
    } else {
        s
    };
    assert(augment_edges(s, vload, vstake, edges, i) == augment_edges(
        s1, vload, vstake, edges.skip(1), i,
    ));
    if edges.len() == 1 {
        assert(edges.drop_last() =~= Seq::<Edge>::empty());
        assert(edges.skip(1) =~= Seq::<Edge>::empty());
        assert(augment_edges(s1, vload, vstake, edges.skip(1), i) == s1);
        assert(augment_edges(s, vload, vstake, edges.drop_last(), i) == s);
        assert(edges.last() == edges[0]);
    } else {
        lemma_augment_edges_snoc(s1, vload, vstake, edges.skip(1), i);
        assert(edges.skip(1).drop_last() =~= edges.drop_last().skip(1));
        assert(edges.skip(1).last() == edges.last());
        assert(edges.drop_last()[0] == edges[0]);
        assert(edges.drop_last().len() > 0);
        assert(augment_edges(s, vload, vstake, edges.drop_last(), i) == augment_edges(
            s1, vload, vstake, edges.drop_last().skip(1), i,
        ));
    }
}

/// Bridges the take-prefix form of the phase-B outer invariant across
/// one voter step.
proof fn lemma_augmented_take_step(
    cands0: Seq<Candidate>,
    cands_now: Seq<Candidate>,
    vms: Seq<VoterModel>,
    v: int,
    n: int,
)
    requires
        0 < v <= vms.len(),
        cands0.len() == n,
        cands_now.len() == n,
        forall|i: int| 0 <= i < n && !(#[trigger] cands0[i]).elected ==> cands_now[i]
            == (Candidate {
            score: augment_edges(
                augmented_score(cands0[i].score, vms.take(v - 1), i),
                vms[v - 1].load,
                vms[v - 1].stake,
                vms[v - 1].edges,
                i,
            ),
            ..cands0[i]
        }),
    ensures
        forall|i: int| 0 <= i < n && !(#[trigger] cands0[i]).elected ==> cands_now[i]
            == (Candidate {
            score: augmented_score(cands0[i].score, vms.take(v), i),
            ..cands0[i]
        }),
{
    assert forall|i: int| 0 <= i < n && !(#[trigger] cands0[i]).elected
        implies cands_now[i] == (Candidate {
        score: augmented_score(cands0[i].score, vms.take(v), i),
        ..cands0[i]
    }) by {
        lemma_augmented_score_snoc(cands0[i].score, vms.take(v), i);
        assert(vms.take(v).drop_last() =~= vms.take(v - 1));
        assert(vms.take(v).last() == vms[v - 1]);
    }
}

/// Unrolls `augmented_score` at the back of the voter list.
proof fn lemma_augmented_score_snoc(s: Rational128, vms: Seq<VoterModel>, i: int)
    requires
        vms.len() > 0,
    ensures
        augmented_score(s, vms, i) == augment_edges(
            augmented_score(s, vms.drop_last(), i),
            vms.last().load,
            vms.last().stake,
            vms.last().edges,
            i,
        ),
    decreases vms.len(),
{
    let s1 = augment_edges(s, vms[0].load, vms[0].stake, vms[0].edges, i);
    assert(augmented_score(s, vms, i) == augmented_score(s1, vms.skip(1), i));
    if vms.len() == 1 {
        assert(vms.drop_last() =~= Seq::<VoterModel>::empty());
        assert(vms.skip(1) =~= Seq::<VoterModel>::empty());
        assert(augmented_score(s1, vms.skip(1), i) == s1);
        assert(augmented_score(s, vms.drop_last(), i) == s);
        assert(vms.last() == vms[0]);
    } else {
        lemma_augmented_score_snoc(s1, vms.skip(1), i);
        assert(vms.skip(1).drop_last() =~= vms.drop_last().skip(1));
        assert(vms.skip(1).last() == vms.last());
        assert(vms.drop_last()[0] == vms[0]);
        assert(vms.drop_last().len() > 0);
        assert(augmented_score(s, vms.drop_last(), i) == augmented_score(
            s1, vms.drop_last().skip(1), i,
        ));
    }
}

} // verus!
