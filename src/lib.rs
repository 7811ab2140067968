//! Edit distance between byte strings with Myers' bit-parallel algorithm,
//! together with affix trimming and a histogram lower bound.
pub mod levenshtein;
pub mod bits;
pub mod recurrence;
pub mod masks;
pub mod bounded;
pub mod blocked;
pub mod affix;
pub mod histogram;

pub use affix::trim;
pub use blocked::myers_unbounded;
pub use bounded::myers_64;
pub use histogram::{histogram, lower_bound};

use vstd::prelude::*;

verus! {

} // verus!
