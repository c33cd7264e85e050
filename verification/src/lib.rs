//! Adjudication of simultaneously issued unit orders: the order model, the
//! dependency graph between orders, and its resolution into final outcomes.
//!
//! A turn is adjudicated in four steps. `dependency` builds the graph of
//! which order waits for which. `engine` drains it: pass by pass it resolves
//! what no longer waits for anything but its own contest. `cycles` breaks
//! what is left where it has a known shape, and hands back to the engine.
//! `adjudication` runs the three until every order is resolved, and reports
//! the outcomes.
//!
//! `rules` states all of this as mathematics over order sets; `laws` and
//! `symmetry` prove what holds of every resolution, from what `invariants`
//! shows of every single step. `graph` holds the contracts that are assumed
//! of `petgraph`.

pub mod adjudication;
pub mod cycles;
pub mod dependency;
pub mod engine;
pub mod graph;
pub mod invariants;
pub mod laws;
pub mod map;
pub mod order;
pub mod player;
pub mod province;
pub mod rules;
pub mod symmetry;
pub mod unit;
