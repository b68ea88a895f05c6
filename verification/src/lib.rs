pub mod archival;
pub mod keymap;
pub mod fold;
pub mod codec;
pub mod coin_manager;
pub mod flame_manager;
pub mod graveyard;
pub mod coin_holder;
pub mod params_manager;
