//! Verified core of an Open Knowledge Format (OKF) toolkit.
pub mod text;
pub mod syntax;
pub mod fuzzy;
pub mod date;
pub mod trust;
pub mod concept_id;
pub mod paths;
pub mod links;
pub mod markdown;
pub mod footnotes;
pub mod search;
pub mod yaml;
pub mod yaml_scalar;
pub mod yaml_flow;
pub mod yaml_block;
pub mod emit;
pub mod round_trip;
pub mod document;
pub mod computation;
pub mod provenance;
pub mod bundle;
pub mod severity;
pub mod scaffold;
pub mod log;
pub mod fix;
pub mod graph;
pub mod refactor;
pub mod theme;
pub mod index;
