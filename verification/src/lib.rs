use vstd::prelude::*;

pub mod addr;
pub mod config;
pub mod netinfo;
pub mod scanner;
pub mod state;
pub mod text;

verus! {
} // verus!
