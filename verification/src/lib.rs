//! A note-keeping library built around a dual-store consistency engine:
//! each note is a plain-text file in a content tree, while a metadata
//! index holds the hierarchy, timestamps and soft-delete flags
//! redundantly, and a full-text search index tracks live content. Every
//! mutating operation — create, rename, move, soft-delete, restore,
//! permanent delete, for notes and folders alike — updates all three
//! places in one verified transition, including the derived previews and
//! the rewriting of `[[...]]` cross-references after a rename.

pub mod base64;
pub mod chars;
pub mod folders;
pub mod hierarchy;
pub mod laws;
pub mod links;
pub mod migrate;
pub mod models;
pub mod notes;
pub mod paths;
pub mod preview;
pub mod search;
pub mod tags;
pub mod vault;
