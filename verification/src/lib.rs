//! Harmonic transition engine for the Camelot wheel: a 24-key model
//! (12 tonics x 2 modes), a fixed catalog of harmonic transition rules,
//! the transition graph they induce, shortest-path search, neighbor
//! lookup, and maximal-clique enumeration over that graph.

pub mod camelot;
