//! A local, authoritative index of saved articles, kept in sync with
//! pluggable backends.
//!
//! The crate models one remote document per [`article::Article`], collects
//! them in an id-sorted [`index::ArticleIndex`], tracks offline user actions
//! as [`changes::Changes`] flags, and drives every backend through the
//! [`service::Service`] contract with its non-overlapping update guarantee.
//! The persisted form of an index is read and written by [`codec`].

pub mod article;
pub mod changes;
pub mod codec;
pub mod index;
pub mod order;
pub mod service;
pub mod settings;
pub mod timestamp;
