//! The typed shape of a genome's main tables, as the schema names them.
use vstd::prelude::*;

verus! {

/// The `[project]` table.
#[derive(Debug)]
pub struct Project {
    pub name: String,
    pub domain: String,
    pub schema: String,
    pub summary: String,
    pub intent: Option<String>,
    pub status: Option<String>,
    pub source: Option<String>,
    pub repository: Option<String>,
}

/// A layer of the architecture spine.
#[derive(Debug)]
pub struct Layer {
    pub order: i64,
    pub label: String,
    pub role: Option<String>,
}

/// A component node.
#[derive(Debug)]
pub struct Node {
    pub label: String,
    pub layer: Option<String>,
    pub status: Option<String>,
    pub path: Option<String>,
    pub summary: Option<String>,
    pub why: Option<String>,
}

/// A policy.
#[derive(Debug)]
pub struct Policy {
    pub statement: Option<String>,
    pub why: Option<String>,
    pub enforcement: Option<String>,
}

} // verus!
