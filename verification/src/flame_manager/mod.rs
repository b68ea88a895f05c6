pub mod flame_tier;
pub mod flame;
pub mod flame_set;
pub mod flame_config;
pub mod flame_selection;
pub mod flame_sorting;
pub mod delta;
pub mod errors;
pub mod flame_manager;
pub mod apply_spec;
pub mod apply;
pub mod load;
pub mod store;
