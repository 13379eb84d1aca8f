use yorkie::key::{InvalidBSONKeyError, Key};

#[test]
fn from_bson_key() {
    // create success
    let key = Key::from_bson_key("collection$document").unwrap();
    assert_eq!(key.collection(), "collection");
    assert_eq!(key.document(), "document");

    // invalid bson
    let err = Key::from_bson_key("collection").unwrap_err();
    assert_eq!(err, InvalidBSONKeyError);
    let err = Key::from_bson_key("collection$document$bb").unwrap_err();
    assert_eq!(err, InvalidBSONKeyError);
}

#[test]
fn bson_key() {
    // create success
    let bson_key = "collection$document";
    let key = Key::from_bson_key(bson_key).unwrap();
    assert_eq!(key.bson_key(), bson_key);
}

#[test]
fn bson_key_edge_cases() {
    let key = Key::from_bson_key("$").unwrap();
    assert_eq!(key.collection(), "");
    assert_eq!(key.document(), "");
    let key = Key::from_bson_key("é$ü").unwrap();
    assert_eq!(key.collection(), "é");
    assert_eq!(key.document(), "ü");
    assert_eq!(key.bson_key(), "é$ü");
    assert_eq!(Key::from_bson_key("").unwrap_err(), InvalidBSONKeyError);
    assert_eq!(Key::from_bson_key("$$").unwrap_err(), InvalidBSONKeyError);
}
