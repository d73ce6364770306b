//! Resolves a git remote's recorded URL into canonical web addresses and
//! maintains a small durable registry of URL shortcuts.
//!
//! [`origin::parse`] normalizes a raw remote URL (SSH-style or HTTP(S)) into
//! one canonical web address; [`transform`] derives a commit page and a CI
//! page from it; [`registry::UrlsMap`] is the shortcut registry, serialized
//! to and from its backing file's text by [`codec`]'s verified format.

pub mod codec;
pub mod errors;
pub mod origin;
pub mod registry;
pub mod strutil;
pub mod transform;
