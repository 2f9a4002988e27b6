//! The lifecycle hooks that keep the registry in step with the requests.

use crate::registry::{ended, started, Registry};
use rand::Rng;
use vstd::prelude::*;

verus! {

/// How the hooks present themselves to the framework they are attached to.
pub struct FairingInfo {
    /// The name under which the hooks are listed.
    pub name: &'static str,
    /// Whether the hooks want to be called when a request starts.
    pub on_request: bool,
    /// Whether the hooks want to be called when a response is ready.
    pub on_response: bool,
}

/// The hooks that must be attached before any handler asks for a
/// [`RequestID`](crate::request_id::RequestID): one runs when a request
/// starts, the other when its response is ready.
pub struct RequestIDFairing;

/// Draws a 64-bit number from `rand::thread_rng()` with `Rng::gen`. The
/// generator is seeded by the system, so nothing is claimed of the number.
#[verifier::external_body]
fn random_identifier() -> (id: u64) {
    rand::thread_rng().gen()
}

impl RequestIDFairing {
    /// The hooks are named "request id" and ask for both events.
    pub fn info(&self) -> (info: FairingInfo)
        ensures
            info.name@ == "request id"@,
            info.on_request,
            info.on_response,
    {
        FairingInfo { name: "request id", on_request: true, on_response: true }
    }

    /// A request starts: a fresh random identifier is recorded for `handle`,
    /// in place of any stale entry, and every other entry is left alone.
    pub fn on_request(&self, registry: &mut Registry, handle: usize)
        ensures
            final(registry)@.contains_key(handle),
            final(registry)@ == started(old(registry)@, handle, final(registry)@[handle]),
    {
        let id: u64 = random_identifier();
        registry.insert(handle, id);
    }

    /// A request ends: the entry of `handle` is removed, if there is one, and
    /// every other entry is left alone.
    pub fn on_response(&self, registry: &mut Registry, handle: usize)
        ensures
            final(registry)@ == ended(old(registry)@, handle),
    {
        registry.remove(handle);
    }
}

} // verus!
