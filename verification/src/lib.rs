//! `sim_core`: the discrete decision logic of a fires-and-manoeuvre simulation, with
//! its behaviour stated as contracts and proved.
//!
//! Each module holds one subsystem's exact, integer-valued rules: the suppression
//! chain, target-priority doctrine, weapon–target assignment and the fire-control
//! bookkeeping around it, air-defence channels and magazines, the line-of-sight memo,
//! and the enums the scenario schema is built from.

pub mod suppression;
pub mod allocation;
pub mod fire_control;
pub mod los_cache;
pub mod names;
pub mod state;
pub mod doctrine;
pub mod events;
pub mod sensing;
pub mod fires;
pub mod terrain;
pub mod air;
pub mod air_defence;
pub mod c2;
pub mod scenario;
