//! A library for watching software repositories for new release tags.
//!
//! The verified core: a mapping from repository identifiers to release
//! tags (`tagmap`), a textual codec for persisting that mapping
//! (`codec`), classification of a release-listing response body
//! (`fetch`), the poll-cycle decision logic (`cycle`), and the
//! notification body builder (`notify`). Laws relating these parts are
//! proved in `laws`.

pub mod codec;
pub mod cycle;
pub mod laws;
pub mod notify;
pub mod fetch;
pub mod tagmap;
