use yorkie::rht::{RHTNode, RHT};
use yorkie::time::{ActorID, Ticket};

fn actor() -> ActorID {
    ActorID::from_hex("0000000000abcdef01234567").unwrap()
}

#[test]
fn rht_node_remove() {
    let id = actor();

    let mut node = RHTNode::new(
        String::from("key"),
        String::from("value"),
        Ticket::new(0, 0, id.clone()),
    );
    assert!(!node.is_removed());

    let removed_at = Ticket::new(0, 1, id.clone());
    node.remove(removed_at.clone());
    assert_eq!(node.removed_at().unwrap(), &removed_at);
    assert!(node.is_removed());

    let before_removed_at = Ticket::new(0, 0, id.clone());
    node.remove(before_removed_at);
    assert_eq!(node.removed_at().unwrap(), &removed_at);
    assert!(node.is_removed());
}

#[test]
fn insert() {
    let mut rht = RHT::new();
    let key = "key";
    let val = "value";
    let id = actor();
    let executed_at = Ticket::new(0, 0, id.clone());

    rht.insert(key.to_string(), val.to_string(), executed_at);
    assert_eq!(rht.get(key), val);
    assert!(rht.has(key));

    // when after ticket
    let val = "value2";
    let executed_at = Ticket::new(0, 1, id.clone());
    rht.insert(key.to_string(), val.to_string(), executed_at);
    assert_eq!(rht.get(key), val);
    assert!(rht.has(key));

    // when before ticket
    let val = "value3";
    let executed_at = Ticket::new(0, 0, id.clone());
    rht.insert(key.to_string(), val.to_string(), executed_at);
    assert_ne!(rht.get(key), val);
    assert!(rht.has(key));
}

#[test]
fn get_when_empty_map() {
    let rht = RHT::new();

    assert_eq!(rht.get("key"), "");
    assert!(!rht.has("key"));
}

#[test]
fn rht_remove() {
    let mut rht = RHT::new();
    let key = "key";
    let val = "value";
    let id = actor();
    let executed_at = Ticket::new(0, 0, id.clone());

    // when removed_at is None
    rht.insert(key.to_string(), val.to_string(), executed_at.clone());
    assert_eq!(rht.remove(key, executed_at.clone()), val);
    assert!(!rht.has(key));

    // invalid key
    assert_eq!(rht.remove("", executed_at.clone()), "");

    // when after executed_at
    let executed_at = Ticket::new(0, 1, id.clone());
    assert_eq!(rht.remove(key, executed_at.clone()), val);
    assert!(!rht.has(key));
}

#[test]
fn rht_remove_stale_tombstone() {
    let mut rht = RHT::new();
    let id = actor();
    rht.insert("k".to_string(), "v".to_string(), Ticket::new(0, 0, id));
    assert_eq!(rht.remove("k", Ticket::new(0, 5, id)), "v");
    assert_eq!(rht.get("k"), "");
    // a removal not after the tombstone changes nothing and gives nothing back
    assert_eq!(rht.remove("k", Ticket::new(0, 3, id)), "");
    assert_eq!(rht.get("k"), "");
    assert!(!rht.has("k"));
    // a later insert brings the key back
    rht.insert("k".to_string(), "w".to_string(), Ticket::new(0, 6, id));
    assert_eq!(rht.get("k"), "w");
}

#[test]
fn elements() {
    let mut rht = RHT::new();
    let keys = vec!["key", "key2"];
    let values = vec!["value", "value2"];
    let id = actor();
    let executed_at = Ticket::new(0, 0, id.clone());

    for (i, key) in keys.iter().enumerate() {
        rht.insert(key.to_string(), values[i].to_string(), executed_at.clone());
    }

    let elements = rht.elements();
    for i in 0..keys.len() {
        let found = elements.iter().find(|(k, _)| k == keys[i]).unwrap();
        assert_eq!(found.1, values[i]);
    }
}

#[test]
fn elements_skip_removed() {
    let mut rht = RHT::new();
    let id = actor();
    rht.insert("b".to_string(), "2".to_string(), Ticket::new(0, 0, id));
    rht.insert("a".to_string(), "1".to_string(), Ticket::new(0, 0, id));
    rht.insert("c".to_string(), "3".to_string(), Ticket::new(0, 0, id));
    rht.remove("b", Ticket::new(0, 1, id));
    assert_eq!(
        rht.elements(),
        vec![("a".to_string(), "1".to_string()), ("c".to_string(), "3".to_string())]
    );
    assert_eq!(rht.to_string(), "{a:1,c:3}");
}

#[test]
fn rht_to_string() {
    let mut rht = RHT::new();
    assert_eq!(rht.to_string(), "{}");

    let id = actor();
    let executed_at = Ticket::new(0, 0, id.clone());
    rht.insert("b".to_string(), "2".to_string(), executed_at.clone());
    rht.insert("c".to_string(), "3".to_string(), executed_at.clone());
    rht.insert("a".to_string(), "1".to_string(), executed_at);

    assert_eq!(rht.to_string(), "{a:1,b:2,c:3}");
}

#[test]
fn last_writer_wins_scenario() {
    let a = actor();
    let mut rht = RHT::new();
    rht.insert("k".to_string(), "v1".to_string(), Ticket::new(0, 0, a));
    rht.insert("k".to_string(), "v2".to_string(), Ticket::new(0, 1, a));
    assert_eq!(rht.get("k"), "v2");
    rht.insert("k".to_string(), "v3".to_string(), Ticket::new(0, 0, a));
    assert_eq!(rht.get("k"), "v2");
}

#[test]
fn inserts_commute() {
    let a = actor();
    let mut one = RHT::new();
    one.insert("k".to_string(), "x".to_string(), Ticket::new(3, 0, a));
    one.insert("k".to_string(), "y".to_string(), Ticket::new(2, 0, a));
    one.insert("k".to_string(), "y".to_string(), Ticket::new(2, 0, a));
    let mut two = RHT::new();
    two.insert("k".to_string(), "y".to_string(), Ticket::new(2, 0, a));
    two.insert("k".to_string(), "x".to_string(), Ticket::new(3, 0, a));
    assert_eq!(one.to_string(), two.to_string());
    assert_eq!(one.get("k"), "x");
}

#[test]
fn rht_clone_keeps_tombstones() {
    let a = actor();
    let mut rht = RHT::new();
    rht.insert("x".to_string(), "1".to_string(), Ticket::new(0, 0, a));
    rht.insert("y".to_string(), "2".to_string(), Ticket::new(0, 0, a));
    rht.remove("x", Ticket::new(0, 1, a));
    let copy = rht.clone();
    assert_eq!(rht.to_string(), "{y:2}");
    assert_eq!(copy.to_string(), "{y:2}");
    assert!(!copy.has("x"));
    // the copy keeps the tombstone's time: an older removal gives nothing back
    let mut copy = copy;
    assert_eq!(copy.remove("x", Ticket::new(0, 0, a)), "");
    rht.insert("z".to_string(), "3".to_string(), Ticket::new(0, 2, a));
    assert_eq!(copy.to_string(), "{y:2}");
}
