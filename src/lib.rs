//! Entry store, reconciliation and feed parsing for a personal feed reader.
//!
//! - [`feed`] turns an RSS or Atom document into entries of one feed.
//! - [`merge`] reconciles a feed's fresh entries with the stored collection.
//! - [`codec`] writes and reads the store's tab-separated text format.
//! - [`store`] decides the steps of a locked read-modify-write transaction.
//! - [`listing`] holds the other whole-collection operations.
//! - [`entry`], [`text`], [`dates`] and [`events`] hold the shared types and helpers.

pub mod codec;
pub mod dates;
pub mod entry;
pub mod events;
pub mod feed;
pub mod listing;
pub mod merge;
pub mod store;
pub mod text;
