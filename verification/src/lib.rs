//! Verified core of `cargo vibe`: how the tools are called and what their reports say,
//! which of the linter's suggestions are applied to a file and how, and the steps of the
//! fix loop. The program around it reads, runs and prints; every decision is made here.

pub mod apply;
pub mod check;
pub mod command;
pub mod config;
pub mod diff_risk;
pub mod edit;
pub mod finding;
pub mod fix;
pub mod heal;
pub mod json;
pub mod number;
pub mod order;
pub mod path;
pub mod suggestion;
pub mod text;
pub mod tool_report;
