//! Cosmogony: builds a forest of administrative zones out of raw
//! OpenStreetMap data.
//!
//! The library works on plain modelled values: coordinates are integers in
//! 1e-7 degrees (the unit OSM itself stores), tag sets are ordinary vectors
//! of string pairs, and polygon geometry is carried as opaque values of the
//! geometry crate, pre-scaled to the same 1e-7 degree unit, and read only
//! through a small set of trusted adapters.

pub mod strings;
pub mod file_format;
pub mod geometry;
pub mod tags;
pub mod zone;
pub mod ztree;
pub mod hierarchy_builder;
pub mod labels;
pub mod osm;
pub mod postcode;
pub mod zone_ext;
pub mod zone_typer;
pub mod country_finder;
pub mod additional_zones;
pub mod merger;
pub mod cosmogony;
pub mod admin_type;
pub mod pipeline;
