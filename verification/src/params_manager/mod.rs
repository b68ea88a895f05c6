pub mod params_holder;
pub mod params_manager;
pub mod laws;
