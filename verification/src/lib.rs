//! Core of a photo-gallery browser's backend.
//!
//! Two components. The directory scanner classifies the entries of a
//! single-level directory read: photographer sub-directories of a root
//! (each with an optional preview image) and recognized image files of a
//! folder. The settings store is a flat document of named, JSON-typed
//! preferences with typed accessors and per-key defaults.
//!
//! The scanner works on listings handed in as plain values; reading the
//! filesystem, persisting the settings document and the rest of the
//! process-level glue live in the embedding application.

pub mod ext;
pub mod scan;
pub mod settings;
