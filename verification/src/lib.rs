//! Configuration and control-command parsing for a job supervisor.
use vstd::prelude::*;

pub mod config;
pub mod error;
pub mod job;
pub mod laws;
pub mod parse;
pub mod strmap;
pub mod text;

verus! {

} // verus!
