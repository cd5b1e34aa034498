//! Corpus discovery, grouping and canonical selection for per-platform
//! keyboard-layout definition files.
//!
//! The library takes the names found under a corpus's `keyboards/<platform>/`
//! directories, derives a locale key and a platform key for each definition
//! file, groups the files into a corpus index, selects one canonical file per
//! platform for a chosen locale, routes parsed definitions into a unified
//! multi-platform layout record, and wraps that record into an output bundle.
//! Everything around it — fetching the corpus, walking directories, the
//! interactive picker, XML decoding and bundle persistence — is left to the
//! caller, which hands plain values in and takes plain values back.

pub mod bundle;
pub mod index;
pub mod layout;
pub mod lexord;
pub mod names;
pub mod select;
