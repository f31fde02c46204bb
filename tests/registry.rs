use terminal_chat::registry::{Registry, RegistryViolation, Session};

fn session(id: u128, name: &str) -> Session<()> {
    Session { id, username: name.to_string(), outbox: () }
}

#[test]
fn register_refuses_a_duplicate_identity() {
    let mut r: Registry<()> = Registry::new();
    assert_eq!(r.register(session(1, "a")), Ok(()));
    assert_eq!(r.register(session(1, "b")), Err(RegistryViolation));
    assert_eq!(r.username_of(1).unwrap(), "a");
}

#[test]
fn unregister_twice_is_unregister_once() {
    let mut r: Registry<()> = Registry::new();
    r.register(session(1, "a")).unwrap();
    r.register(session(2, "b")).unwrap();
    let first = r.unregister(1);
    assert_eq!(first.map(|s| s.username), Some("a".to_string()));
    let after_once = r.snapshot();
    assert!(r.unregister(1).is_none());
    assert_eq!(r.snapshot(), after_once);
    assert_eq!(after_once, vec![(2, "b".to_string())]);
    assert!(r.unregister(99).is_none());
}

#[test]
fn enroll_draws_distinct_version_four_ids() {
    let mut r: Registry<()> = Registry::new();
    let a = r.enroll("carol".to_string(), ()).unwrap();
    let b = r.enroll("carol".to_string(), ()).unwrap();
    assert_ne!(a, b);
    assert_eq!((a >> 76) & 0xf, 4);
    assert_eq!(r.snapshot().len(), 2);
    assert!(r.contains(a) && r.contains(b));
    assert!(r.outbox_of(a).is_some());
}
