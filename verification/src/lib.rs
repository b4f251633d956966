//! A time-indexed repository of document snapshots and editorial updates,
//! keyed by URL, together with the tags that group updates.

pub mod bytes;
pub mod doc;
pub mod error;
pub mod filter;
pub mod ordered;
pub mod repository;
pub mod route;
pub mod sorted_map;
pub mod stamped;
pub mod tag;
pub mod text;
pub mod time;
pub mod update;
pub mod url;
pub mod url_repo;
