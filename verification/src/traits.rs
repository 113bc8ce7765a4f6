//! Capability interfaces around the engine: fetching the on-chain
//! snapshot and resolving account identities.  Frontends supply the
//! implementations; tests may use in-memory ones.

use vstd::prelude::*;
use crate::types::{ElectionsError, OnchainElectionsData};
use crate::types::api::ApiElectionResults;

verus! {

/// A source of on-chain elections data.  `None` asks for the latest
/// block; `Some` names a block hash.
pub trait OnchainElectionsDataProvider {
    fn elections_at_blockhash(&self, hash: Option<[u8; 32]>) -> Result<
        OnchainElectionsData,
        ElectionsError,
    >;
}

/// Resolves display names into an assembled result, where available.
pub trait OnchainIdentityProvider {
    fn map_elections_identities(&self, elections: &mut ApiElectionResults) -> Result<
        (),
        ElectionsError,
    >;
}

} // verus!
