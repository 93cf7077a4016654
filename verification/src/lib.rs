//! Identity and session control core: a credential store with lockout
//! policy, a signed-token issuer and verifier, a session registry with
//! hijack detection, a request rate limiter, and a role-permission
//! evaluator, together with the small verified stores and scanners the
//! surrounding services share.

pub mod access;
pub mod audio;
pub mod clock;
pub mod cluster;
pub mod config;
pub mod content;
pub mod credentials;
pub mod crypto;
pub mod gateway;
pub mod guard;
pub mod headers;
pub mod hex;
pub mod inspect;
pub mod kvmap;
pub mod ratelimit;
pub mod render;
pub mod scrape;
pub mod session;
pub mod strutil;
pub mod token;
pub mod ui;
