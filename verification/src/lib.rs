//! A gen/kill forward dataflow solver that tracks which lock guards may be
//! live at each point of a function's control-flow graph, and reports every
//! pair of guards over distinct lock resources that become live together.

pub mod cfg;
pub mod genkill;
pub mod idset;
pub mod statement;
