//! Compares the schema (columns and indices) of a logical database across
//! multiple deployments, each identified by an (environment, country) pair.
//!
//! The reconciliation engine is pure: given per-deployment schema facts and a
//! deployment registry it groups facts by schema-object identity, chooses the
//! majority rendered form as the baseline, flags deviating deployments and
//! renders an aligned tab-separated diff table. All I/O (collecting facts from
//! a live database, reading configuration, writing report files) lives outside
//! this crate.

pub mod grouping;
pub mod laws;
pub mod models;
pub mod reconcile;
pub mod registry;
pub mod report;
pub mod text;
