//! Extraction of administrative-boundary polygons from OpenStreetMap-style
//! data: relations are filtered by their `boundary`/`admin_level` tags, their
//! way and node references are resolved to coordinate chains, and the chains
//! are stitched into maximal rings ready for export.

pub mod converter;
pub mod file_creation_handler;
pub mod file_creator;
pub mod numeral;
pub mod osm_reader;
pub mod output_handler;
pub mod poly_writer;
pub mod tags;
pub mod text;
pub mod utils;
