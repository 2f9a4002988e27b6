use rocket_request_id::{LookupError, Registry, RequestID, RequestIDFairing};

/// What a dispatched request came back with: the status and, on success, the
/// body.
struct Response {
    status: u16,
    body: Option<String>,
}

impl Response {
    fn status(&self) -> u16 {
        self.status
    }

    fn body_string(&mut self) -> Option<String> {
        self.body.take()
    }
}

type Handler = fn(&Registry, usize) -> Result<String, LookupError>;

/// Runs one request through the hooks (when attached) and the handler.
fn dispatch(registry: &mut Registry, attached: bool, handle: usize, handler: Handler) -> Response {
    let fairing = RequestIDFairing;
    if attached {
        fairing.on_request(registry, handle);
    }
    let outcome = handler(registry, handle);
    if attached {
        fairing.on_response(registry, handle);
    }
    match outcome {
        Ok(body) => Response { status: 200, body: Some(body) },
        Err(error) => Response { status: error.status_code(), body: None },
    }
}

fn req_id(registry: &Registry, handle: usize) -> Result<String, LookupError> {
    let id = RequestID::from_request(registry, handle)?;
    Ok(format!("{}", u64::from(id)))
}

struct TestGuard {
    id: RequestID,
}

fn test_guard(registry: &Registry, handle: usize) -> Result<TestGuard, LookupError> {
    Ok(TestGuard { id: RequestID::from_request(registry, handle).unwrap() })
}

fn multiple_with_guard(registry: &Registry, handle: usize) -> Result<String, LookupError> {
    let id1 = RequestID::from_request(registry, handle)?;
    let guard2 = test_guard(registry, handle)?;
    assert_eq!(id1, guard2.id);
    Ok("".to_string())
}

#[test]
fn unique_ids() {
    let mut registry = Registry::new();

    let mut resp1 = dispatch(&mut registry, true, 1, req_id);
    let mut resp2 = dispatch(&mut registry, true, 1, req_id);

    assert_eq!(resp1.status(), 200);
    assert_eq!(resp2.status(), 200);
    assert_ne!(resp1.body_string(), resp2.body_string());
}

#[test]
fn doesnt_leak() {
    let mut registry = Registry::new();

    assert_eq!(dispatch(&mut registry, true, 1, req_id).status(), 200);
    assert_eq!(dispatch(&mut registry, true, 1, req_id).status(), 200);

    assert_eq!(registry.len(), 0);
}

#[test]
fn same_in_same_request() {
    let mut registry = Registry::new();

    assert_eq!(dispatch(&mut registry, true, 1, multiple_with_guard).status(), 200);
}

#[test]
fn unique_ids_and_no_leak_together() {
    let mut registry = Registry::new();

    let mut a = dispatch(&mut registry, true, 0x1000, req_id);
    let body_a = a.body_string();
    let mut b = dispatch(&mut registry, true, 0x2000, req_id);
    let body_b = b.body_string();

    assert!(body_a.is_some());
    assert!(body_b.is_some());
    assert_ne!(body_a, body_b);
    assert_eq!(registry.len(), 0);
}

#[test]
fn body_is_the_identifier_in_decimal() {
    let mut registry = Registry::new();
    registry.insert(3, 18_446_744_073_709_551_615);
    assert_eq!(req_id(&registry, 3), Ok("18446744073709551615".to_string()));
}

#[test]
fn unattached_hooks_fail_the_request() {
    let mut registry = Registry::new();

    let mut resp = dispatch(&mut registry, false, 1, req_id);

    assert_eq!(resp.status(), 500);
    assert_eq!(resp.body_string(), None);
    assert_eq!(registry.len(), 0);
}

#[test]
fn not_attached_is_the_only_error() {
    let registry = Registry::new();
    assert_eq!(RequestID::from_request(&registry, 7), Err(LookupError::NotAttached));
    assert_eq!(LookupError::NotAttached.status_code(), 500);
    assert_eq!(
        LookupError::NotAttached.message(),
        "unable to get request id: did you forget to attach the fairing?"
    );
}

#[test]
fn resolving_after_the_end_fails() {
    let fairing = RequestIDFairing;
    let mut registry = Registry::new();
    fairing.on_request(&mut registry, 9);
    assert!(RequestID::from_request(&registry, 9).is_ok());
    fairing.on_response(&mut registry, 9);
    assert_eq!(RequestID::from_request(&registry, 9), Err(LookupError::NotAttached));
}

#[test]
fn on_request_records_one_entry() {
    let fairing = RequestIDFairing;
    let mut registry = Registry::new();
    registry.insert(5, 50);
    fairing.on_request(&mut registry, 6);
    assert_eq!(registry.len(), 2);
    assert_eq!(registry.get(5), Some(50));
    let id = registry.get(6);
    assert!(id.is_some());
    assert_eq!(RequestID::from_request(&registry, 6).map(u64::from).ok(), id);
}

#[test]
fn on_request_overwrites_a_stale_entry() {
    let fairing = RequestIDFairing;
    let mut registry = Registry::new();
    let mut seen = Vec::new();
    for _ in 0..8 {
        fairing.on_request(&mut registry, 4);
        assert_eq!(registry.len(), 1);
        seen.push(registry.get(4).unwrap());
    }
    seen.sort();
    seen.dedup();
    assert!(seen.len() > 1);
}

#[test]
fn on_response_is_idempotent() {
    let fairing = RequestIDFairing;
    let mut registry = Registry::new();
    registry.insert(1, 11);
    fairing.on_response(&mut registry, 2);
    assert_eq!(registry.len(), 1);
    fairing.on_response(&mut registry, 1);
    fairing.on_response(&mut registry, 1);
    assert_eq!(registry.len(), 0);
    assert_eq!(registry.get(1), None);
}

#[test]
fn registry_insert_get_remove() {
    let mut registry = Registry::new();
    assert_eq!(registry.len(), 0);
    assert_eq!(registry.get(1), None);
    registry.insert(1, 100);
    registry.insert(2, 200);
    assert_eq!(registry.len(), 2);
    assert_eq!(registry.get(1), Some(100));
    assert_eq!(registry.get(2), Some(200));
    registry.insert(1, 101);
    assert_eq!(registry.len(), 2);
    assert_eq!(registry.get(1), Some(101));
    registry.remove(1);
    assert_eq!(registry.len(), 1);
    assert_eq!(registry.get(1), None);
    assert_eq!(registry.get(2), Some(200));
    registry.remove(1);
    assert_eq!(registry.len(), 1);
}

#[test]
fn identifier_is_stable_while_others_come_and_go() {
    let fairing = RequestIDFairing;
    let mut registry = Registry::new();
    fairing.on_request(&mut registry, 10);
    let first = u64::from(RequestID::from_request(&registry, 10).unwrap());

    fairing.on_request(&mut registry, 20);
    assert_eq!(u64::from(RequestID::from_request(&registry, 10).unwrap()), first);
    fairing.on_request(&mut registry, 30);
    fairing.on_response(&mut registry, 20);
    assert_eq!(u64::from(RequestID::from_request(&registry, 10).unwrap()), first);
    fairing.on_response(&mut registry, 30);
    assert_eq!(u64::from(RequestID::from_request(&registry, 10).unwrap()), first);

    fairing.on_response(&mut registry, 10);
    assert_eq!(registry.len(), 0);
}

#[test]
fn requests_side_by_side_keep_their_own_identifiers() {
    let fairing = RequestIDFairing;
    let mut registry = Registry::new();
    registry.insert(999, 1);
    let handles: Vec<usize> = (1..=16).collect();

    for handle in &handles {
        fairing.on_request(&mut registry, *handle);
    }
    assert_eq!(registry.len(), 17);
    let ids: Vec<u64> = handles.iter().map(|h| registry.get(*h).unwrap()).collect();

    for (k, handle) in handles.iter().enumerate().rev() {
        for (j, other) in handles.iter().enumerate().take(k + 1) {
            let id = RequestID::from_request(&registry, *other).unwrap();
            assert_eq!(u64::from(id), ids[j]);
        }
        fairing.on_response(&mut registry, *handle);
        assert_eq!(registry.len(), k + 1);
        assert_eq!(RequestID::from_request(&registry, *handle), Err(LookupError::NotAttached));
    }
    assert_eq!(registry.get(999), Some(1));
    assert_eq!(registry.len(), 1);
}

#[test]
fn info_names_the_hooks_and_asks_for_both_events() {
    let info = RequestIDFairing.info();
    assert_eq!(info.name, "request id");
    assert!(info.on_request);
    assert!(info.on_response);
}

#[test]
fn request_ids_compare_by_number() {
    let mut registry = Registry::new();
    registry.insert(1, 42);
    registry.insert(2, 42);
    registry.insert(3, 43);
    let a = RequestID::from_request(&registry, 1).unwrap();
    let b = RequestID::from_request(&registry, 2).unwrap();
    let c = RequestID::from_request(&registry, 3).unwrap();
    assert_eq!(a, b);
    assert_ne!(a, c);
    assert_eq!(u64::from(a), 42);
    assert_eq!(u64::from(c), 43);
}
