
/// # Brute force matching algorithm
pub mod brute_force;
pub use brute_force::BruteForce;

/// # Knuth-Morris-Pratt matching algorithm
pub mod kmp;
pub use kmp::Kmp;
