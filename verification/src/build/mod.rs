//! Build-time toolchain for a consumer crate's `build.rs`: everything that is decided when
//! npm packages are vendored, sources are processed, and an `index.html` and an import map
//! are rendered into an embeddable output directory.

pub mod admission;
pub mod builder;
pub mod bundle;
pub mod compress;
pub mod hazards;
pub mod marker;
pub mod optimize;
pub mod options;
pub mod preflight;
pub mod run;
pub mod steps;
pub mod swap;
pub mod tags;
pub mod templates;
