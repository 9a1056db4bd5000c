pub mod graph;
pub mod ingestion;
pub mod manifest;
pub mod manifest_laws;
pub mod toml_value;
