//! Finds byte-identical files: each file's content is reduced to an MD5
//! digest, the files are grouped by digest, and the groups with more than one
//! member are reported as duplicates.
use vstd::prelude::*;

pub mod digest;
pub mod search;
pub mod engine;
pub mod laws;

verus! {

} // verus!
