//! Discrete spatial indexing for a geometric kernel: integer lattice points
//! with face-adjacency and Moore-neighborhood enumeration.

pub mod grid;
