//! Messages that callers send to the coordinator, and its query answer.
use vstd::prelude::*;
use crate::state::State;

verus! {

/// Sets up an empty coordinator.
pub struct InstantiateMsg {}

/// Requests that change the registry once their reply arrives.
pub enum ExecuteMsg {
    /// Spawn a new counter from the stored code `code_id`, starting at 0.
    InstantiateNewCounter { code_id: u64 },
    /// Increment the counter at `contract`.
    Increment { contract: String },
    /// Set the counter at `contract` to `count`.
    Reset { contract: String, count: i32 },
}

/// Read-only requests.
pub enum QueryMsg {
    /// List every known child.
    GetContracts {},
}

/// Every known child, in registry order, each beside its address.
pub struct GetContractsResponse {
    pub contracts: Vec<(String, State)>,
}

} // verus!
