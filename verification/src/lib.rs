//! A personal management journal: records of 1:1 meetings with direct
//! reports, structured insight extracted from meeting transcripts by a
//! language-model service, and prep briefings aggregated from recent
//! entries.
//!
//! The store keeps team members, entries and a memoization cache, and
//! enforces the data rules: unique identifiers, entries that always
//! reference an existing member, partial updates that touch only the
//! named fields, and a cascading member delete.

pub mod types;
pub mod strutil;
pub mod codec;
pub mod store;
pub mod prompt;
pub mod ext;
pub mod commands;
pub mod prep;

pub use types::ActionItem;
pub use types::TeamMember;
pub use types::Entry;
