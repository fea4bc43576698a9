//! Index of a media library laid out as nested directories, each entry
//! described by a `manifest.yml` sidecar file.

pub mod entry;
pub mod error;
pub mod group;
pub mod history;
pub mod library;
pub mod listing;
pub mod manifest;
pub mod markdown;
pub mod paths;
pub mod sync;
pub mod text;
