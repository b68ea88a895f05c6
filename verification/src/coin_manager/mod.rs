pub mod account_body;
pub mod account_delta;
pub mod coin_manager;
pub mod contract_body;
pub mod delta;
pub mod errors;
pub mod shadow_space;
pub mod apply_spec;
pub mod apply;
pub mod load;
pub mod laws;
pub mod store;
pub mod global_read;
