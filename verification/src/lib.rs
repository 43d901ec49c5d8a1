pub mod build;
pub mod config;
pub mod env;
pub mod error;
pub mod glob;
pub mod importmap;
pub mod json;
pub mod module_graph;
pub mod mount;
pub mod npm;
pub mod npm_link;
pub mod path;
pub mod reject;
pub mod sorted_map;
pub mod static_files;
pub mod symlinks;
pub mod text;
pub mod tsconfig;
pub mod tsconfig_read;
pub mod vendor;
pub mod walk;
