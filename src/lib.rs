//! Vehicle dispatch for a simulated ride-hailing fleet: an adaptive large
//! neighborhood search that plans a route of customers for every vehicle, a
//! stateless nearest-vehicle dispatcher, and the decisions of the loop that
//! keeps a live scenario in step with its runner.

pub mod alns;
pub mod construct;
pub mod costs;
pub mod insert;
pub mod models;
pub mod nearest;
pub mod random;
pub mod remove;
pub mod simulation;
pub mod solution;
