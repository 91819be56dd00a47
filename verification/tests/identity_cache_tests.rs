use tui_rsx::cache::WidgetCache;
use tui_rsx::identity::{allocate, Identity};

#[test]
fn root_identity_is_zero() {
    let root = Identity::root();
    assert_eq!(root.digits, vec![b'0']);
}

#[test]
fn allocate_concatenates_digits() {
    let root = Identity::root();
    let id = allocate(5, &root, &None).unwrap();
    assert_eq!(id.digits, b"05".to_vec());
    let id = allocate(123, &root, &None).unwrap();
    assert_eq!(id.digits, b"0123".to_vec());
    let id = allocate(5, &root, &Some(b"7".to_vec())).unwrap();
    assert_eq!(id.digits, b"057".to_vec());
}

#[test]
fn allocate_is_deterministic() {
    let root = Identity::root();
    let a = allocate(42, &root, &Some(b"9".to_vec())).unwrap();
    let b = allocate(42, &root, &Some(b"9".to_vec())).unwrap();
    assert!(a.same_as(&b));
}

#[test]
fn allocate_nests_under_enclosing_identity() {
    let root = Identity::root();
    let outer = allocate(3, &root, &None).unwrap();
    let inner = allocate(1, &outer, &None).unwrap();
    assert_eq!(inner.digits, b"031".to_vec());
}

#[test]
fn distinct_keys_give_distinct_identities() {
    let root = Identity::root();
    let a = allocate(5, &root, &Some(b"1".to_vec())).unwrap();
    let b = allocate(5, &root, &Some(b"2".to_vec())).unwrap();
    assert!(!a.same_as(&b));
}

#[test]
fn non_digit_key_is_rejected() {
    let root = Identity::root();
    assert!(allocate(5, &root, &Some(b"x".to_vec())).is_none());
    assert!(allocate(5, &root, &Some(b"1a".to_vec())).is_none());
    // An empty key is expressible: it simply adds nothing.
    assert!(allocate(5, &root, &Some(Vec::new())).is_some());
}

#[test]
fn cache_constructs_once_per_key() {
    let mut cache = WidgetCache::new();
    let root = Identity::root();
    let id1 = allocate(0, &root, &None).unwrap();
    let (first, fresh1) = cache.get_or_insert(7, id1);
    assert!(fresh1);
    assert_eq!(first, 0);
    assert_eq!(cache.len(), 1);
    let id2 = allocate(0, &root, &None).unwrap();
    let (again, fresh2) = cache.get_or_insert(7, id2);
    assert!(!fresh2);
    assert_eq!(again, first);
    assert_eq!(cache.len(), 1);
}

#[test]
fn cache_is_partitioned_by_widget_kind() {
    let mut cache = WidgetCache::new();
    let root = Identity::root();
    let id_a = allocate(0, &root, &None).unwrap();
    let id_b = allocate(0, &root, &None).unwrap();
    let (a, _) = cache.get_or_insert(1, id_a);
    let (b, _) = cache.get_or_insert(2, id_b);
    assert_ne!(a, b);
    assert_eq!(cache.len(), 2);
}

#[test]
fn distinct_keys_get_distinct_instances() {
    let mut cache = WidgetCache::new();
    let root = Identity::root();
    let mut seen = Vec::new();
    for k in 0..5u8 {
        let id = allocate(0, &root, &Some(vec![b'0' + k])).unwrap();
        let (inst, fresh) = cache.get_or_insert(1, id);
        assert!(fresh);
        assert!(!seen.contains(&inst));
        seen.push(inst);
    }
    assert_eq!(cache.len(), 5);
}

#[test]
fn identities_are_totally_ordered() {
    let root = Identity::root();
    let a = allocate(1, &root, &None).unwrap();
    let b = allocate(2, &root, &None).unwrap();
    assert!(a.precedes(&b));
    assert!(!b.precedes(&a));
    let a2 = allocate(1, &root, &None).unwrap();
    assert!(!a.precedes(&a2));
    assert!(!a2.precedes(&a));
    // A strict prefix comes first.
    let longer = allocate(12, &root, &None).unwrap();
    let shorter = allocate(1, &root, &None).unwrap();
    assert!(shorter.precedes(&longer));
}
