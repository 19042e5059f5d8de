//! Tracking of pointstamp reachability in a dataflow graph with logical
//! timestamps.
//!
//! A [`builder::Builder`] collects the nodes and edges of a graph and compiles
//! them into a [`tracker::Tracker`], which maintains for every port the counts of
//! the capabilities held there and the frontier of what those capabilities imply
//! downstream.
//!
//! What the tracker computes is given as functions on its state in
//! [`propagation`] and [`summarize`]; [`laws`], [`balance`], [`ending`],
//! [`walks`] and [`surveying`] hold what is proved of them.

pub mod order;
pub mod location;
pub mod change_batch;
pub mod antichain;
pub mod frontier;
pub mod worklist;
pub mod graph;
pub mod acyclic;
pub mod summarize;
pub mod surveying;
pub mod walks;
pub mod builder;
pub mod propagation;
pub mod tracker;
pub mod laws;
pub mod ending;
pub mod balance;
