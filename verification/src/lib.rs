//! Rating tables and the rules that match observations to their rows.
use vstd::prelude::*;

pub mod features;
pub mod frame;
pub mod quantity;
pub mod rating_model;
pub mod text;
pub mod matching;
pub mod encoding;
pub mod plan;
pub mod fitting;
pub mod report;
pub mod review;
pub mod trees;
pub mod exactness;
pub mod analysis;
pub mod exhibit;
pub mod markdown;
