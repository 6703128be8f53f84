use vstd::prelude::*;

pub mod buffer;
pub mod text;
pub mod resp;
pub mod network;
pub mod backend;
pub mod cmd;

verus! {

} // verus!
