//! Lazy access to npm package metadata documents ("packuments") and the
//! difference between the versions a document lists and the versions a caller
//! already holds.

pub mod error;
pub mod position;
pub mod nesting;
pub mod lazy;
pub mod ordered;
pub mod diff;
pub mod document;
pub mod package;
pub mod js_package;
