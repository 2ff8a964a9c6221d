//! A small, verified build tool: a line-oriented parser for dependency-rule
//! files, and a planner that turns a rule set and a goal into an ordered
//! sequence of execution phases.

pub mod makefile;
pub mod plan;
