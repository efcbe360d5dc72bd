use ping_core::gossip::GossipRecord;
use ping_core::gossip::RemoteView;
use ping_core::registry::Registry;
use ping_core::registry::RegistryError;

fn record(name: &[u8], endpoint: u64, owner: &[u8], timestamp: u64, retract: bool) -> GossipRecord {
    GossipRecord {
        name: name.to_vec(),
        endpoint,
        owner: owner.to_vec(),
        timestamp,
        retract,
    }
}

#[test]
fn register_then_lookup_routes_to_endpoint() {
    let mut reg = Registry::new();
    assert_eq!(reg.lookup(&b"ping_actor".to_vec()), None);
    reg.register(b"ping_actor".to_vec(), 7, b"peer-a".to_vec()).expect("fresh name registers");
    assert_eq!(reg.lookup(&b"ping_actor".to_vec()), Some(7));
    // lookup is a stateless read: repeating it changes nothing.
    assert_eq!(reg.lookup(&b"ping_actor".to_vec()), Some(7));
    assert_eq!(reg.lookup(&b"missing".to_vec()), None);
}

#[test]
fn register_same_endpoint_is_idempotent() {
    let mut reg = Registry::new();
    reg.register(b"ping_actor".to_vec(), 7, b"peer-a".to_vec()).unwrap();
    reg.register(b"ping_actor".to_vec(), 7, b"peer-a".to_vec()).expect("same binding is fine");
    assert_eq!(reg.lookup(&b"ping_actor".to_vec()), Some(7));
}

#[test]
fn register_conflicting_endpoint_is_name_taken() {
    let mut reg = Registry::new();
    reg.register(b"ping_actor".to_vec(), 7, b"peer-a".to_vec()).unwrap();
    match reg.register(b"ping_actor".to_vec(), 8, b"peer-b".to_vec()) {
        Err(RegistryError::NameTaken) => {}
        _ => panic!("a name bound to another endpoint must be refused"),
    }
    assert_eq!(reg.lookup(&b"ping_actor".to_vec()), Some(7));
}

#[test]
fn unregister_removes_only_that_name() {
    let mut reg = Registry::new();
    reg.register(b"a".to_vec(), 1, b"p".to_vec()).unwrap();
    reg.register(b"b".to_vec(), 2, b"p".to_vec()).unwrap();
    reg.unregister(&b"a".to_vec());
    assert_eq!(reg.lookup(&b"a".to_vec()), None);
    assert_eq!(reg.lookup(&b"b".to_vec()), Some(2));
    // removing an unbound name is a no-op
    reg.unregister(&b"a".to_vec());
    assert_eq!(reg.lookup(&b"b".to_vec()), Some(2));
}

#[test]
fn lookup_before_publish_is_empty_after_publish_resolves() {
    let mut view = RemoteView::new();
    assert_eq!(view.lookup(&b"ping_actor".to_vec()), None);
    view.apply(record(b"ping_actor", 7, b"peer-a", 10, false));
    assert_eq!(view.lookup(&b"ping_actor".to_vec()), Some(7));
    assert_eq!(view.lookup(&b"missing".to_vec()), None);
}

#[test]
fn later_timestamp_wins() {
    let mut view = RemoteView::new();
    view.apply(record(b"n", 1, b"peer-a", 10, false));
    view.apply(record(b"n", 2, b"peer-b", 11, false));
    assert_eq!(view.lookup(&b"n".to_vec()), Some(2));
    // an older record cannot roll it back
    view.apply(record(b"n", 3, b"peer-c", 9, false));
    assert_eq!(view.lookup(&b"n".to_vec()), Some(2));
}

#[test]
fn timestamp_tie_broken_by_greater_owner() {
    let mut view = RemoteView::new();
    view.apply(record(b"n", 1, b"peer-a", 10, false));
    view.apply(record(b"n", 2, b"peer-b", 10, false));
    assert_eq!(view.lookup(&b"n".to_vec()), Some(2));
    // the lexicographically smaller owner loses the same tie
    view.apply(record(b"n", 3, b"peer-0", 10, false));
    assert_eq!(view.lookup(&b"n".to_vec()), Some(2));
}

#[test]
fn redelivered_record_changes_nothing() {
    let mut view = RemoteView::new();
    view.apply(record(b"n", 1, b"peer-a", 10, false));
    view.apply(record(b"n", 1, b"peer-a", 10, false));
    assert_eq!(view.lookup(&b"n".to_vec()), Some(1));
}

#[test]
fn later_retraction_hides_the_name() {
    let mut view = RemoteView::new();
    view.apply(record(b"n", 1, b"peer-a", 10, false));
    view.apply(record(b"n", 1, b"peer-a", 12, true));
    assert_eq!(view.lookup(&b"n".to_vec()), None);
    // an earlier registration does not resurrect it
    view.apply(record(b"n", 1, b"peer-b", 11, false));
    assert_eq!(view.lookup(&b"n".to_vec()), None);
    // a later one does
    view.apply(record(b"n", 4, b"peer-b", 13, false));
    assert_eq!(view.lookup(&b"n".to_vec()), Some(4));
}
