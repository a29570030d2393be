//! Foundational data structures and in-place sorting algorithms, each
//! specified over a mathematical model and verified against it.

/// # Data Structures
pub mod ds;

/// # Sorting Algorithms
pub mod sort;

/// # String Search Algorithms
pub mod string;

/// # Laws relating the operations
pub mod laws;
