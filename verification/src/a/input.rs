//! The instance: an `N x N` board, `M` takoyaki, `V` arm nodes, and the start
//! (`S`) and target (`T`) boards (`'1'`: a takoyaki).
use vstd::prelude::*;

verus! {

#[derive(Debug)]
pub struct Input {
    pub N: usize,
    pub M: usize,
    pub V: usize,
    pub S: Vec<Vec<char>>,
    pub T: Vec<Vec<char>>,
}

} // verus!
