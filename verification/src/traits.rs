//! The capability bound expected of a graph key type.

use vstd::prelude::*;

verus! {

/// What a graph key type must offer: equality, hashing and cloning.
pub trait GraphKeyTrait: Eq + core::hash::Hash + Clone {

}

} // verus!
