//! A digital-logic circuit simulation engine.
//!
//! Components (gates, multiplexers, registers, splitters, tunnels, I/O pins)
//! carry multi-bit signals on their pins.  A circuit wires component output
//! pins to input pins, tunnels connect by shared label without an explicit
//! wire, and a propagation pass evaluates every component in a topological
//! order that treats clocked components as cycle breakers.

pub mod component;
pub mod circuit;
pub mod context;
pub mod laws;
pub mod signal;
