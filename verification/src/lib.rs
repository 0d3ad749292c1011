//! Translation cache and orchestration engine for localization templates.
//!
//! A template is an ordered list of keyed entries. Each translatable string
//! of it is resolved, per target language, from a write-once cache or from a
//! translation provider, and the template is rebuilt per language with the
//! translated strings in place.

pub mod ordered;
pub mod text;
pub mod cache;
pub mod template;
pub mod orchestrator;
pub mod provider;
pub mod laws;
