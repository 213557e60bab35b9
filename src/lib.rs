use vstd::prelude::*;

pub mod error;
pub mod event;
pub mod mask;
pub mod session;
pub mod wire;

verus! {

} // verus!
