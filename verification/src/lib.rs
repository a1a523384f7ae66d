//! A static-site build pipeline for two firmware catalogs: a VR headset
//! family and an e-reader family.
//!
//! The library holds the whole data-to-site computation: deriving a version
//! string per record, ordering the distinct models by a curated priority
//! list, grouping and sorting records for the per-model pages, building the
//! navigation links and `robots.txt`, and driving the template engine and
//! the HTML minifier. File reading and writing stay outside the library.

pub mod numbers;
pub mod records;
pub mod versions;
pub mod text;
pub mod ordering;
pub mod pages;
pub mod render;
