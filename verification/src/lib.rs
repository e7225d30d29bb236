//! Fetch planning and orchestration for a podcast feed fetcher.
//!
//! Given a set of subscribed feeds, the library normalizes each feed's parsed
//! document into a date-ordered episode index, decides per feed how far back
//! to fetch and whether to advance a persisted watermark, deduplicates
//! downloads against a registry of already-fetched episodes so repeated runs
//! are idempotent, and drives the per-feed download protocol with per-feed
//! failure isolation. Network retrieval, document parsing and the download
//! command itself are collaborators that callers run around the library.

pub mod document;
pub mod download;
pub mod index;
pub mod models;
pub mod options;
pub mod orchestrator;
pub mod plan;
pub mod registry;
