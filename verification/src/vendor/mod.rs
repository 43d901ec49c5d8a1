//! Vendor packages into a `web_modules/` tree and build the import map.
//!
//! Each [`PackageSpec`](spec::PackageSpec) names a source (an npm package + semver
//! range, a GitHub archive at a ref, or a pre-packed tarball URL), how to
//! [extract](spec::Extract) it, and where its files land. These modules decide
//! everything about that work but do none of it: which dependencies a manifest asks
//! for, where a package goes, what is kept of its archive, how a source package is
//! compiled and laid out, which import-map entries it gets, and what a later build
//! removes again.

pub mod archive;
pub mod cache;
pub mod emit;
pub mod entries;
pub mod fetch;
pub mod keep;
pub mod manifest;
pub mod plan;
pub mod program;
pub mod prune;
pub mod select;
pub mod spec;
pub mod wrapper;
