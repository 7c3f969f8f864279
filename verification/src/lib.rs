//! A simulation of Lamport's Oral-Messages algorithm for the Byzantine
//! Generals problem: a commander's order propagates recursively through a
//! roster of lieutenants, some of whom may be traitors that relay falsified
//! values, and each loyal participant resolves its decision by majority vote
//! over everything it has received.

pub mod experiment;
pub mod general;
pub mod message;
pub mod model;
pub mod om;

pub use experiment::{run_random_trial, run_trial};
pub use general::General;
pub use message::Message;
pub use om::OMAlgorithm;
