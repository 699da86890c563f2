//! Upserting batches of flat records into a tabular sheet: record parsing,
//! composite-key merging, policy-driven column ordering and the plan of cell
//! writes, with the behaviour of each stated and proved.

pub mod args;
pub mod column_laws;
pub mod columns;
pub mod fields;
pub mod grid;
pub mod json;
pub mod merge;
pub mod natural;
pub mod pattern;
pub mod policy;
pub mod record;
pub mod seqs;
pub mod text;
pub mod textmap;
pub mod update;
pub mod writeback;
