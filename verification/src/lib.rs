//! A per-tick pointer picking pipeline.
//!
//! Raw pointer input is folded into a registry of pointers, each pointer's
//! hits are ordered nearest-first, the change of the hit-list between two
//! ticks is turned into interaction events, and those events drive the
//! selection state of the pickable entities.
//!
//! Coordinates and depths are integers. A position is given in fixed-point
//! units of the caller's choice. A depth is an integer that grows with the
//! distance from the pointer; for the intersections of `bevy_mod_raycast`
//! it is the bit pattern of the distance.
//!
//! - [`pointer`]: pointer identities, button and location state, the registry
//! - [`input`]: input events and their application to the registry
//! - [`hit`]: the rays to cast and the ordering of what they hit
//! - [`raycast`]: reading the hits out of a ray source
//! - [`focus`]: hover, press, click and drag events of one pointer
//! - [`selection`]: selection events and selection state
//! - [`pipeline`]: the stages run in order, once per tick

pub mod pointer;
pub mod input;
pub mod hit;
pub mod raycast;
pub mod focus;
pub mod selection;
pub mod pipeline;
