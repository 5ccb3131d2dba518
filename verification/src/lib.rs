use vstd::prelude::*;

pub mod error;
pub mod symbol_map;
pub mod symbols;
pub mod text;
pub mod wire;

verus! {

} // verus!
