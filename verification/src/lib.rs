//! Duplicate resolution for LumaSift: category selection, path ordering,
//! content digests, the three scan phases that build an exact-duplicate
//! plan, the application of a reviewed plan to the quarantine, the scan
//! runtime and the companion service, with their contracts.
pub mod text;
pub mod path;
pub mod sort;
pub mod model;
pub mod classify;
pub mod index;
pub mod digest;
pub mod request;
pub mod runtime;
pub mod group;
pub mod plan;
pub mod phases;
pub mod apply;
pub mod companion;
