//! A small web client library: request commands, header sets, and the
//! engine that mirrors a site to local paths, level by level.
pub mod address;
pub mod command;
pub mod crawl;
pub mod headers;
pub mod links;
pub mod path_map;
pub mod text;
