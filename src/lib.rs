// A radial 3-D layout of service trees: a node store with a path index, a
// builder from tree descriptions, a breadth-first walk that assigns paths and
// depths, per-depth fan-out for the radius factors, and the layout plan.

pub mod layout;
pub mod levels;
pub mod node;
pub mod scale;
pub mod store;
pub mod tree;
