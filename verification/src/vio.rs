//! The multi-state constraint filter: what its state holds where, and what its
//! updates keep, drop and reorder.

pub mod anchor;
pub mod certainty;
pub mod estimates;
pub mod exact;
pub mod feature_init;
pub mod feature_system;
pub mod feature_update;
pub mod forms;
pub mod givens;
pub mod jacobian;
pub mod kalman;
pub mod landmark;
pub mod options;
pub mod passage;
pub mod reanchor;
pub mod responses;
pub mod selection;
pub mod sight;
pub mod slam_update;
pub mod standstill;
pub mod state;
pub mod state_helper;
pub mod tracks;
pub mod updater;
pub mod updater_helper;
pub mod updater_slam;
pub mod updater_zero_velocity;
pub mod values;
pub mod vio_manager;
pub mod zero_velocity;
