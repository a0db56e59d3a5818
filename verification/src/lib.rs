pub mod calendar;
pub mod cli;
pub mod enrich;
pub mod facet;
pub mod ingest;
pub mod json;
pub mod model;
pub mod render;
pub mod resolve;
pub mod text;
pub mod validate;
