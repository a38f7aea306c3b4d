//! Skill-queue remap planning for EVE Online characters.
use vstd::prelude::*;

pub mod text;
pub mod date;
pub mod callback;
pub mod attributes;
pub mod allocation;
pub mod parser;
pub mod accounts;
pub mod cli;
pub mod paths;
pub mod esi;
pub mod resolve;
pub mod reorder;
pub mod duration;
pub mod queue;
pub mod sso;
pub mod esi_queue;
pub mod session;
pub mod report;
pub mod plan;
pub mod sde;
pub mod remap;

verus! {
}
