//! A maze arena whose world is held in integer units: an occupancy grid of
//! per-class logits, seeded maze carving and content placement, the
//! ground-truth grid updater, probe assembly for the sensor model, flag pickup
//! and capture, and the decisions of the bridge between the simulation and a
//! decision process.
//!
//! Lengths in the world are held in thousandths of a world unit, angles in
//! millionths of a radian, and logits and confidences in thousandths.
pub mod bridge;
pub mod flags;
pub mod grid;
pub mod maze;
pub mod placement;
pub mod sensor;
pub mod truth;
