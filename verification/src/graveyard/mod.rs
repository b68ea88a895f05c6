pub mod delta;
pub mod errors;
pub mod graveyard;
pub mod laws;
