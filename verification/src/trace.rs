//! Trace events of the Phragmén engine.
//!
//! The engine emits an ordered, append-only sequence of these events at
//! precisely defined points of the election; every payload is a value
//! snapshot taken at the moment of emission.

use vstd::prelude::*;
use crate::account::AccountId;
use crate::engine::{Candidate, Voter};
use crate::rational::Rational128;

verus! {

/// A voter's load changed.
#[derive(Clone, Copy, Debug, PartialEq)]
pub struct LoadUpdate {
    pub who: AccountId,
    pub load: Rational128,
    pub new_load: Rational128,
}

/// The load of one voter→candidate edge changed.
#[derive(Clone, Copy, Debug, PartialEq)]
pub struct EdgeLoadUpdate {
    pub voter: AccountId,
    pub candidate: AccountId,
    pub load: Rational128,
    pub new_load: Rational128,
}

/// A candidate's base score changed.
#[derive(Clone, Copy, Debug, PartialEq)]
pub struct CandidateScoreUpdate {
    pub who: AccountId,
    pub score: Rational128,
    pub new_score: Rational128,
}

/// A voter's load contribution changed a candidate's score.
#[derive(Clone, Copy, Debug, PartialEq)]
pub struct CandidateScoreUpdateByVoter {
    pub voter: AccountId,
    pub candidate: AccountId,
    pub score: Rational128,
    pub new_score: Rational128,
}

/// Trace of one internal step inside the Phragmén engine.
#[derive(Clone, Debug, PartialEq)]
pub enum PhragmenTrace {
    Start,
    Finish,
    ToElect(usize),
    RoundStart(usize, Vec<Candidate>, Vec<Voter>),
    ComputeCandidateScores,
    IncCandidateScoresByVoters,
    CandidateScoresCalculated(Vec<Candidate>),
    CandidateScoresUpdatedByVoters(Vec<Candidate>),
    CandidateElected(Candidate),
    VoterEdgeUpdated(EdgeLoadUpdate),
    VoterLoadUpdated(LoadUpdate),
    CandidateScoreUpdated(CandidateScoreUpdate),
    CandidateScoreUpdatedByVoter(CandidateScoreUpdateByVoter),
}

} // verus!
