//! ccvl: the checked core of a local-first CV and application workspace.
//!
//! The library holds the rules of the workspace as verified functions over
//! plain values: downstream publication boundaries, workspace paths, document
//! specifications, line contracts, the JSON Schema subset, metric sets, skill
//! manifests, response evaluation, PDF facts and repository hygiene.
#![allow(unused_imports)]

use vstd::prelude::*;

pub mod text;
pub mod json;
pub mod downstream;
pub mod workspace;
pub mod application;
pub mod render;
pub mod schema;
pub mod opportunity;
pub mod measure;
pub mod check;
pub mod public;
pub mod skills;
pub mod pdf;
pub mod commands;
pub mod evaluation;

verus! {

} // verus!
