pub mod bodies;
pub mod deltas;
pub mod errors;
pub mod apply;
pub mod account_coin_holder;
pub mod shares;
pub mod contract_ledger;
pub mod contract_specs;
pub mod contract_ops;
pub mod contract_coin_holder;
pub mod coin_holder_specs;
pub mod coin_holder;
pub mod load;
pub mod laws;
pub mod store;
