//! Procedural bonsai trees for the terminal: the growth rules of the tree and
//! the layout of what is drawn around it.

pub mod bonsai;
pub mod display;
