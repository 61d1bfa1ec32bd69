pub mod solver;

pub use solver::anagram::AnagramIterator;
pub use solver::anagram::AnagramSolver;
pub use solver::rot::RotSolver;
pub use solver::CipherSolver;
