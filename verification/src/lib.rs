//! Verified core of the Allnodes validator add-ons: configuration parsing,
//! vote selection on top of a tower of lockouts, run-time constants that can
//! be overridden and persisted, endpoint selection and text formatting.

pub mod bootstrap;
pub mod config;
pub mod constants;
pub mod endpoints;
pub mod flags;
pub mod formatters;
pub mod mid;
pub mod storage;
pub mod text;
pub mod tower;
pub mod validators;
pub mod voting;
