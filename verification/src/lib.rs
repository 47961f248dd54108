//! Finite ergodic theory: transformations of a finite state space, partitions
//! and their refinements, orbit structure and invariant sets, correlation
//! sets, cylinder sets along orbits, and the support graph of a Markov chain.
//!
//! Everything here is combinatorial and exact; measures, averages, entropies
//! and exponents are real-valued quantities computed on top of these sets.

pub mod measure;
pub mod markov;
pub mod entropy;
pub mod ergodicity;
pub mod mixing;
pub mod shannon_mcmillan;

pub use measure::Transformation;
pub use markov::TransitionGraph;
pub use entropy::{KolmogorovSinaiEntropy, Partition};
pub use ergodicity::ErgodicChecker;
pub use mixing::MixingChecker;
pub use shannon_mcmillan::ShannonMcMillanBreiman;
