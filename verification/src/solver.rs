pub mod anagram;
pub mod letters;
pub mod rot;

use vstd::prelude::*;

verus! {

/// A solver for a cipher that turns an input string into candidate outputs.
///
/// The contract of each implementation lives on its inherent `solve`
/// method; this trait only fixes the common shape.
pub trait CipherSolver {
    fn solve(&self, input: &str) -> Vec<String>;
}

} // verus!
