//! Filename cleaning for detoxrs: the transform pipeline, the collision
//! planner, and the pure decisions of the rename, journal and report layers,
//! all verified with Verus.
//!
//! Nothing in this crate touches a filesystem. Names arrive as raw bytes or as
//! text, and every decision comes back as plain data for the binary to act on.
#![allow(unused_imports)]

pub mod apply;
pub mod classes;
pub mod cli;
pub mod decode;
pub mod dedupe;
pub mod escape_laws;
pub mod fsops;
pub mod invisible;
pub mod journal;
pub mod order;
pub mod plan;
pub mod plan_laws;
pub mod pipeline;
pub mod policy;
pub mod report;
pub mod session;
pub mod text;
pub mod transform_laws;
pub mod truncate;
pub mod unicode;
pub mod walk;

use vstd::prelude::*;

verus! {

/// This crate's own version: a non-empty string.
pub fn placeholder_version() -> (v: &'static str)
    ensures
        v@ == "0.1.0"@,
        v@.len() > 0,
{
    let v = "0.1.0";
    proof {
        reveal_strlit("0.1.0");
    }
    v
}

} // verus!
