//! Request identifiers for a web application.
//!
//! Every request that enters the application is given a random 64-bit
//! identifier when it starts. The identifier is kept in a [`Registry`] under
//! the request's handle until the request ends, and can be read back any number
//! of times meanwhile, always with the same value.
//!
//! The registry is an explicit value: the caller that owns it decides how it is
//! shared (for instance behind one lock), and hands it to the lifecycle hooks of
//! [`RequestIDFairing`] and to [`RequestID::from_request`].

pub mod fairing;
pub mod lifecycle;
pub mod registry;
pub mod request_id;

pub use fairing::{FairingInfo, RequestIDFairing};
pub use registry::Registry;
pub use request_id::{LookupError, RequestID};
