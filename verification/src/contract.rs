//! Configuration for the on-chain token contract client.
//!
//! The chain itself is a collaborator reached over the network; nothing of
//! it is modelled here. The library holds the client's configuration, and
//! the surrounding binary performs the calls.

use vstd::prelude::*;

verus! {

/// Connection settings for the contract client.
#[derive(Debug)]
pub struct ContractConfig {
    pub rpc_url: String,
    pub contract_address: String,
    pub private_key: String,
    pub chain_id: u64,
}

impl Clone for ContractConfig {
    fn clone(&self) -> (r: Self)
        ensures
            r.rpc_url@ == self.rpc_url@,
            r.contract_address@ == self.contract_address@,
            r.private_key@ == self.private_key@,
            r.chain_id == self.chain_id,
    {
        ContractConfig {
            rpc_url: self.rpc_url.clone(),
            contract_address: self.contract_address.clone(),
            private_key: self.private_key.clone(),
            chain_id: self.chain_id,
        }
    }
}

/// A client for the private token contract, bound to one configuration.
pub struct PrivateTokenContract {
    pub config: ContractConfig,
}

impl PrivateTokenContract {
    /// Binds a client to the given configuration.
    pub fn new(config: ContractConfig) -> (r: Self)
        ensures
            r.config.rpc_url@ == config.rpc_url@,
            r.config.contract_address@ == config.contract_address@,
            r.config.private_key@ == config.private_key@,
            r.config.chain_id == config.chain_id,
    {
        PrivateTokenContract { config }
    }
}

} // verus!
