//! Two small libraries: an object cache that hands out values and takes them
//! back for reuse, and a configuration tree keyed by short ASCII names.
pub mod config_model;
pub mod config;
pub mod config_laws;
pub mod cache;
