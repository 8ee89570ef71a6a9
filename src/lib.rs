//! Scaffolding helpers for daily puzzle folders: extraction of example
//! fixtures from puzzle pages, and the decisions of the run around it.
pub mod fixtures;
pub mod run;
