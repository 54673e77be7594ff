//! A public-key directory core: certificate normalization and merging,
//! a content-addressed store with a publish/unpublish state machine,
//! sealed verification tokens, a rate limiter, and an HKP-style
//! lookup adapter.

pub mod util;
pub mod cert;
pub mod merge;
pub mod crypto;
pub mod textenc;
pub mod codec;
pub mod token;
pub mod ratelimit;
pub mod store;
pub mod hkp;
pub mod web;
