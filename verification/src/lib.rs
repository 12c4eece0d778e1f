//! Core engine of a reproducible, content-addressed source-build package
//! manager: a planner that turns package definitions into an acyclic
//! dependency graph, a builder that schedules the graph under a concurrency
//! bound, and a content-addressed store that caches build artifacts.

pub mod builder;
pub mod executor;
pub mod fetcher;
pub mod graph;
pub mod manifest;
pub mod options;
pub mod package;
pub mod plan;
pub mod planner;
pub mod recipe;
pub mod runner;
pub mod store;
pub mod utils;
