//! The engine of a link organizer: a store of link groups and tags, the
//! import of files into it, and the search for links that are there twice.
//!
//! A store is a sequence of [`model::LinkGroup`]s, the most recent in front,
//! and a [`text_set::TextSet`] of tag names. Two kinds of file can be
//! imported: a OneTab text ([`onetab`]) and a snapshot of a store
//! ([`model::SaveData`]). [`import::import_from_file`] reads a file, gives
//! its groups and links new identities ([`ids`], [`fresh`]), merges them into
//! the store under a strategy and a position ([`merge`]), and reports
//! whether a URI then occurs twice ([`uris`]).
//! [`import::check_for_duplicates`] answers beforehand whether a file would
//! bring a URI that the store holds.
//!
//! The rest changes and reads a store ([`store`], [`queries`], [`dupes`],
//! [`sorting`]) and writes it out ([`export`]).

pub mod dupes;
pub mod export;
pub mod fresh;
pub mod ids;
pub mod import;
pub mod merge;
pub mod model;
pub mod onetab;
pub mod queries;
pub mod sorting;
pub mod store;
pub mod text;
pub mod text_set;
pub mod uris;
