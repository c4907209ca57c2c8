//! A package manager's core: manifest parsing and rendering, registry paths,
//! publication checks and dependency resolution.
pub mod text;
pub mod deps;
pub mod manifest;
pub mod resolver;
pub mod roundtrip;
pub mod registry;
pub mod publisher;
pub mod versions;
