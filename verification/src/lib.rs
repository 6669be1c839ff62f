//! A discrete-time digital circuit simulator.
//!
//! Devices declare named input and output ports; wires connect an output of
//! one device to an input of another. A controller keeps every port as a node
//! of a dependency graph that is provably acyclic at all times, and advances
//! the whole circuit one tick at a time: it resolves every port's value in a
//! topological order and then commits every device's state transition.

pub mod controller;
pub mod device;
pub mod graph;
