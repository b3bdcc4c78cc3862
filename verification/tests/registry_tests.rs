use bevy_spacetimedb::registry::{ChannelRegistry, ReconcilerRegistry, RegistryError};

#[test]
fn first_request_creates_a_channel_handle() {
    let mut registry = ChannelRegistry::new();

    let (handle, created) = registry.channel_for(42);
    assert!(created);
    assert_eq!(handle, 0);
    assert_eq!(registry.len(), 1);
}

#[test]
fn later_requests_reuse_the_handle() {
    let mut registry = ChannelRegistry::new();

    let (first, created) = registry.channel_for(42);
    assert!(created);
    let (second, created) = registry.channel_for(42);
    assert!(!created);
    assert_eq!(first, second);
    assert_eq!(registry.len(), 1);
}

#[test]
fn distinct_types_get_distinct_handles() {
    let mut registry = ChannelRegistry::new();

    let (a, _) = registry.channel_for(1);
    let (b, _) = registry.channel_for(2);
    let (c, _) = registry.channel_for(3);
    assert_ne!(a, b);
    assert_ne!(a, c);
    assert_ne!(b, c);
    assert_eq!(registry.len(), 3);
}

#[test]
fn lookup_finds_only_issued_handles() {
    let mut registry = ChannelRegistry::new();

    assert_eq!(registry.lookup(7), None);
    let (handle, _) = registry.channel_for(7);
    assert_eq!(registry.lookup(7), Some(handle));
    assert_eq!(registry.lookup(8), None);
}

#[test]
fn duplicate_reconciler_registration_is_a_fatal_error() {
    let mut pairs = ReconcilerRegistry::new();

    assert!(!pairs.is_registered(11));
    assert_eq!(pairs.register_pair(11), Ok(()));
    assert!(pairs.is_registered(11));

    // The same row-type/key-type pair cannot carry a second
    // reconciliation process.
    assert_eq!(pairs.register_pair(11), Err(RegistryError::DuplicateReconciler));
    assert!(pairs.is_registered(11));
}

#[test]
fn different_pairs_register_independently() {
    let mut pairs = ReconcilerRegistry::new();

    assert_eq!(pairs.register_pair(1), Ok(()));
    assert_eq!(pairs.register_pair(2), Ok(()));
    assert!(pairs.is_registered(1));
    assert!(pairs.is_registered(2));
    assert!(!pairs.is_registered(3));
}
