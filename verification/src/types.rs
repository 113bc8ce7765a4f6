//! Input and output value types around the election engine.

pub mod api;

use vstd::prelude::*;
use crate::account::AccountId;
use crate::engine::{Candidate, ElectionResult, Voter};
use crate::trace::PhragmenTrace;

verus! {

/// The error taxonomy of the system, by kind.
#[derive(Clone, Copy, Debug, PartialEq, Eq, Structural)]
pub enum ElectionsError {
    /// Chain connection, block lookup, storage fetch or decoding failed.
    Transport,
    /// A required storage entry was absent.
    MissingStorage,
    /// `to_elect > 0` but no candidate has positive approval stake.
    EngineDegenerate,
    /// Arithmetic saturation was flagged during a round (never fatal).
    EngineSaturation,
    /// Rendering an identity string failed.
    Presentation,
}

/// A current seat holder (member or runner-up) as recorded on chain.
#[derive(Clone, Copy, Debug, PartialEq)]
pub struct SeatHolder {
    pub who: AccountId,
    pub stake: u128,
    pub deposit: u128,
}

/// One on-chain voting record.
#[derive(Clone, Debug, PartialEq)]
pub struct VoterRecord {
    pub stake: u128,
    pub deposit: u128,
    pub votes: Vec<AccountId>,
}

/// Elections data downloaded from the chain.
#[derive(Clone, Debug, PartialEq)]
pub struct OnchainElectionsData {
    pub block_hash: [u8; 32],
    pub desired_members: u32,
    pub desired_runners_up: u32,
    pub election_rounds: u32,
    pub members: Vec<SeatHolder>,
    pub runners_up: Vec<SeatHolder>,
    pub candidates: Vec<(AccountId, u128)>,
    pub voting: Vec<(AccountId, VoterRecord)>,
}

/// Intermediate representation used by the Phragmén engine.
#[derive(Clone, Debug, PartialEq)]
pub struct PhragmenInputs {
    pub to_elect: usize,
    pub candidates: Vec<AccountId>,
    pub voters: Vec<(AccountId, u64, Vec<AccountId>)>,
}

/// Everything an engine run produces: the winners, the final candidate
/// and voter records, the ordered trace, whether any arithmetic
/// saturated along the way, and a ghost record of every round's
/// selection state, through which the contract states the election
/// rule itself.
pub struct PhragmenOutputs {
    pub result: ElectionResult,
    pub candidates: Vec<Candidate>,
    pub voters: Vec<Voter>,
    pub traces: Vec<PhragmenTrace>,
    pub saturated: bool,
    pub round_states: Ghost<Seq<crate::engine::RoundState>>,
}

} // verus!
