//! Verified core of a cache reclaimer: which paths may be touched, whether a
//! candidate stays inside its root, and what the report says.
pub mod path;
pub mod safety;
pub mod targets;
pub mod scan;
pub mod text;
pub mod cli;
pub mod versions;
pub mod run;
