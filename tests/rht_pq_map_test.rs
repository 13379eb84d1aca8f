use yorkie::element::{Element, Primitive};
use yorkie::rht_pq_map::{RHTPQMapError, RHTPriorityQueueMap};
use yorkie::time::{ActorID, Ticket};

fn actor() -> ActorID {
    ActorID::from_hex("0123456789abcdef01234567").unwrap()
}

#[test]
fn data_handle() {
    let mut map = RHTPriorityQueueMap::<Primitive>::new();
    let actor_id = actor();
    let created_at = Ticket::new(0, 0, actor_id.clone());

    // set return None
    let result = map.set("data".to_string(), Primitive::new(1, created_at));
    if let Some(_) = result {
        assert!(false);
    };

    // set return removed element
    let created_at = Ticket::new(0, 1, actor_id.clone());
    let result = map.set("data".to_string(), Primitive::new(2, created_at));
    match result {
        Some(element) => assert_eq!(element.to_string(), "1"),
        _ => assert!(false),
    }
}

#[test]
fn set_keeps_both_elements() {
    let a = actor();
    let mut map = RHTPriorityQueueMap::<Primitive>::new();
    map.set("data".to_string(), Primitive::new(1, Ticket::new(0, 0, a)));
    let shadowed = map.set("data".to_string(), Primitive::new(2, Ticket::new(0, 1, a))).unwrap();
    assert_eq!(shadowed.created_at(), Ticket::new(0, 0, a));
    assert_eq!(shadowed.removed_at(), Some(Ticket::new(0, 1, a)));
    assert_eq!(map.get("data").unwrap().value, 2);
    assert!(map.has("data"));
    assert_eq!(map.nodes().len(), 2);
    assert_eq!(map.to_string(), "{data:2}");
}

#[test]
fn set_against_tombstoned_head_returns_nothing() {
    let a = actor();
    let mut map = RHTPriorityQueueMap::<Primitive>::new();
    map.set("k".to_string(), Primitive::new(1, Ticket::new(0, 0, a)));
    let deleted = map.delete("k".to_string(), Ticket::new(0, 1, a)).unwrap();
    assert_eq!(deleted.value, 1);
    assert!(!map.has("k"));
    assert!(map.get("k").is_none());
    assert!(map.set("k".to_string(), Primitive::new(5, Ticket::new(0, 2, a))).is_none());
    assert_eq!(map.get("k").unwrap().value, 5);
}

#[test]
fn older_set_stays_behind_newer_head() {
    let a = actor();
    let mut map = RHTPriorityQueueMap::<Primitive>::new();
    map.set("k".to_string(), Primitive::new(1, Ticket::new(5, 0, a)));
    // created before the head: the head is not displaced and stays newest
    assert!(map.set("k".to_string(), Primitive::new(2, Ticket::new(1, 0, a))).is_none());
    assert_eq!(map.get("k").unwrap().value, 1);
    assert_eq!(map.nodes().len(), 2);
}

#[test]
fn delete_by_created_at_targets_one_element() {
    let a = actor();
    let mut map = RHTPriorityQueueMap::<Primitive>::new();
    map.set("x".to_string(), Primitive::new(1, Ticket::new(1, 0, a)));
    map.set("y".to_string(), Primitive::new(2, Ticket::new(2, 0, a)));
    let removed = map.delete_by_created_at(Ticket::new(2, 0, a), Ticket::new(3, 0, a)).unwrap();
    assert_eq!(removed.value, 2);
    assert!(!map.has("y"));
    assert!(map.has("x"));
    assert!(map.delete_by_created_at(Ticket::new(9, 0, a), Ticket::new(10, 0, a)).is_none());
    // a removal not after the tombstone does nothing
    assert!(map.delete_by_created_at(Ticket::new(2, 0, a), Ticket::new(3, 0, a)).is_none());
}

#[test]
fn purge_evicts_and_reports_missing() {
    let a = actor();
    let mut map = RHTPriorityQueueMap::<Primitive>::new();
    let e = Primitive::new(1, Ticket::new(1, 0, a));
    map.set("x".to_string(), e);
    map.set("y".to_string(), Primitive::new(2, Ticket::new(2, 0, a)));
    assert_eq!(map.purge(e), Ok(()));
    assert!(!map.has("x"));
    assert_eq!(map.nodes().len(), 1);
    assert_eq!(
        map.purge(e),
        Err(RHTPQMapError::ElementNotFound("1:0:0123456789abcdef01234567".to_string()))
    );
}

#[test]
fn pq_map_elements_and_to_string() {
    let a = actor();
    let mut map = RHTPriorityQueueMap::<Primitive>::new();
    assert_eq!(map.to_string(), "{}");
    map.set("b".to_string(), Primitive::new(20, Ticket::new(1, 0, a)));
    map.set("a".to_string(), Primitive::new(10, Ticket::new(2, 0, a)));
    map.set("c".to_string(), Primitive::new(30, Ticket::new(3, 0, a)));
    map.delete("c".to_string(), Ticket::new(4, 0, a));
    let elements = map.elements();
    assert_eq!(elements.len(), 2);
    assert_eq!(elements[0].0, "a");
    assert_eq!(elements[0].1.value, 10);
    assert_eq!(elements[1].0, "b");
    assert_eq!(map.to_string(), "{a:10,b:20}");
}
