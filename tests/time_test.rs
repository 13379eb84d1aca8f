use std::cmp::Ordering;
use yorkie::time::{ActorID, InvalidActorID, Ticket};

#[test]
fn from_hex() {
    let err = ActorID::from_hex("").unwrap_err();
    assert_eq!(InvalidActorID, err);

    assert!(!ActorID::from_hex("0123456789abcdef01234567").is_err());
}

#[test]
fn from_hex_decodes_bytes() {
    let id = ActorID::from_hex("0123456789abcdef01234567").unwrap();
    assert_eq!(
        id.bytes(),
        &[0x01, 0x23, 0x45, 0x67, 0x89, 0xab, 0xcd, 0xef, 0x01, 0x23, 0x45, 0x67]
    );
    let upper = ActorID::from_hex("0123456789ABCDEF01234567").unwrap();
    assert_eq!(upper, id);
}

#[test]
fn from_hex_rejects_malformed() {
    assert_eq!(ActorID::from_hex("0123"), Err(InvalidActorID));
    assert_eq!(ActorID::from_hex("0123456789abcdef0123456"), Err(InvalidActorID));
    assert_eq!(ActorID::from_hex("0123456789abcdef0123456g"), Err(InvalidActorID));
    assert_eq!(ActorID::from_hex("0123456789abcdef012345678"), Err(InvalidActorID));
}

#[test]
fn actor_id_to_string() {
    let hex_str = "0123456789abcdef01234567";
    let actor_id = ActorID::from_hex(hex_str).unwrap();
    assert_eq!(hex_str, actor_id.to_string());
}

#[test]
fn actor_id_to_string_lower_case() {
    let actor_id = ActorID::new([0xff, 0, 0x0a, 0xb0, 1, 2, 3, 4, 5, 6, 7, 8]);
    assert_eq!(actor_id.to_string(), "ff000ab00102030405060708");
}

#[test]
fn compare() {
    let before_actor_id = ActorID::from_hex("0000000000abcdef01234567").unwrap();
    let after_actor_id = ActorID::from_hex("0123456789abcdef01234567").unwrap();

    assert_eq!(Ordering::Less, before_actor_id.compare(&after_actor_id));
    assert_eq!(Ordering::Greater, after_actor_id.compare(&before_actor_id));
    assert_eq!(Ordering::Equal, before_actor_id.compare(&before_actor_id));
}

#[test]
fn annotated_string() {
    let hex_str = "0123456789abcdef01234567";
    let actor_id = ActorID::from_hex(hex_str).unwrap();
    let ticket = Ticket::new(0, 0, actor_id);

    let annotated_str = ticket.annotated_string();
    assert_eq!(annotated_str, format!("0:0:{}", hex_str));
}

#[test]
fn annotated_string_large_numbers() {
    let actor_id = ActorID::from_hex("0123456789abcdef01234567").unwrap();
    let ticket = Ticket::new(18446744073709551615, 4294967295, actor_id);
    assert_eq!(
        ticket.key(),
        "18446744073709551615:4294967295:0123456789abcdef01234567"
    );
    assert_eq!(Ticket::new(120, 7, actor_id).annotated_string(), "120:7:0123456789abcdef01234567");
}

#[test]
fn cmp() {
    let hex_str = "0123456789abcdef01234567";
    let actor_id = ActorID::from_hex(hex_str).unwrap();

    // compare for lamport
    let before_ticket = Ticket::new(0, 0, actor_id.clone());
    let after_ticket = Ticket::new(1, 0, actor_id.clone());

    assert_eq!(Ordering::Less, before_ticket.cmp(&after_ticket));
    assert_eq!(Ordering::Greater, after_ticket.cmp(&before_ticket));
    assert_eq!(Ordering::Equal, after_ticket.cmp(&after_ticket));

    // compare for actor_id
    let hex_str = "0000000000abcdef01234567";
    let before_actor_id = ActorID::from_hex(hex_str).unwrap();
    let before_ticket = Ticket::new(0, 0, before_actor_id);
    let after_ticket = Ticket::new(0, 0, actor_id.clone());

    assert_eq!(Ordering::Less, before_ticket.cmp(&after_ticket));
    assert_eq!(Ordering::Greater, after_ticket.cmp(&before_ticket));
    assert_eq!(Ordering::Equal, after_ticket.cmp(&after_ticket));

    // compare for delimiter
    let before_ticket = Ticket::new(0, 0, actor_id.clone());
    let after_ticket = Ticket::new(0, 1, actor_id.clone());

    assert_eq!(Ordering::Less, before_ticket.cmp(&after_ticket));
    assert_eq!(Ordering::Greater, after_ticket.cmp(&before_ticket));
    assert_eq!(Ordering::Equal, after_ticket.cmp(&after_ticket));
}

#[test]
fn after() {
    let hex_str = "0123456789abcdef01234567";
    let actor_id = ActorID::from_hex(hex_str).unwrap();

    // compare for lamport
    let before_ticket = Ticket::new(0, 0, actor_id.clone());
    let after_ticket = Ticket::new(1, 0, actor_id.clone());

    assert!(!before_ticket.after(&after_ticket));
    assert!(after_ticket.after(&before_ticket));
}

#[test]
fn ticket_order_is_total_and_transitive() {
    let a = ActorID::from_hex("0000000000abcdef01234567").unwrap();
    let b = ActorID::from_hex("0123456789abcdef01234567").unwrap();
    let tickets = vec![
        Ticket::new(0, 0, a),
        Ticket::new(0, 1, a),
        Ticket::new(0, 0, b),
        Ticket::new(1, 0, a),
        Ticket::new(1, 5, b),
    ];
    for x in &tickets {
        for y in &tickets {
            let xy = x.cmp(y);
            assert_eq!(xy, y.cmp(x).reverse());
            assert_eq!(xy == Ordering::Equal, x == y);
            for z in &tickets {
                if xy == Ordering::Less && y.cmp(z) == Ordering::Less {
                    assert_eq!(x.cmp(z), Ordering::Less);
                }
            }
        }
    }
    // the lamport counter comes first, then the actor, then the delimiter
    assert_eq!(Ticket::new(0, 9, b).cmp(&Ticket::new(1, 0, a)), Ordering::Less);
    assert_eq!(Ticket::new(0, 9, a).cmp(&Ticket::new(0, 0, b)), Ordering::Less);
}
