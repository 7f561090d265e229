use buscame_db::key::{Field, Key, KeyError};

fn text(s: &str) -> Vec<u8> {
    let mut out = Vec::new();
    let n = s.len();
    if n < 24 {
        out.push(0x60 + n as u8);
    } else if n < 256 {
        out.push(0x78);
        out.push(n as u8);
    } else {
        out.push(0x79);
        out.push((n >> 8) as u8);
        out.push(n as u8);
    }
    out.extend_from_slice(s.as_bytes());
    out
}

fn array(items: &[Vec<u8>]) -> Vec<u8> {
    let mut out = vec![0x9f];
    for item in items {
        out.extend_from_slice(item);
    }
    out.push(0xff);
    out
}

#[test]
fn test_subset() -> Result<(), KeyError> {
    let a = Key::Connection {
        user_id: "100292".to_string(),
        id: "PDF".to_string(),
    };

    let a_bytes = a.serialize()?;

    let b = Key::ConnectionsByUserId {
        user_id: "100292".to_string(),
    };

    let b_bytes = b.serialize()?;

    // everything is a subset *except* the last byte.
    assert!(a_bytes.starts_with(&b_bytes[..(b_bytes.len() - 1)]));

    assert_eq!(a, Key::deserialize(&a_bytes)?);
    assert_eq!(b, Key::deserialize(&b_bytes)?);
    Ok(())
}

#[test]
fn serialize_user_key_exact_bytes() {
    let k = Key::User { user_id: "ab".to_string() };
    let bytes = k.serialize().unwrap();
    assert_eq!(bytes, vec![0x9f, 0x64, b'u', b's', b'e', b'r', 0x62, b'a', b'b', 0xff]);
}

#[test]
fn serialize_uses_shortest_text_heads() {
    let medium = "x".repeat(24);
    let long = "y".repeat(300);
    let k = Key::Connection { user_id: medium.clone(), id: long.clone() };
    let bytes = k.serialize().unwrap();
    assert_eq!(bytes, array(&[text("connections"), text(&medium), text(&long)]));
    assert_eq!(&bytes[13..15], &[0x78, 24]);
    assert_eq!(Key::deserialize(&bytes).unwrap(), k);
}

#[test]
fn serialize_non_ascii_text() {
    let k = Key::KeyToUserId { key: "ñandú".to_string() };
    let bytes = k.serialize().unwrap();
    assert_eq!(bytes, array(&[text("key-to-user-id"), text("ñandú")]));
    assert_eq!(Key::deserialize(&bytes).unwrap(), k);
}

#[test]
fn roundtrip_every_known_namespace() {
    let keys = vec![
        Key::Connection { user_id: "u".to_string(), id: "i".to_string() },
        Key::ConnectionsByUserId { user_id: "u".to_string() },
        Key::UserIdToKey { user_id: "u".to_string() },
        Key::KeyToUserId { key: "k".to_string() },
        Key::User { user_id: "".to_string() },
        Key::requesterReleases { user: "a".to_string(), repo: "b".to_string() },
        Key::Unsupported("other".to_string(), vec![text("x"), text("y")]),
        Key::Unsupported("other".to_string(), vec![]),
    ];
    for k in keys {
        let bytes = k.serialize().unwrap();
        assert_eq!(Key::deserialize(&bytes).unwrap(), k);
    }
}

#[test]
fn requester_keys_read_back_under_their_written_namespace() {
    let all = Key::Requesters.serialize().unwrap();
    assert_eq!(all, array(&[text("Requester")]));
    assert_eq!(
        Key::deserialize(&all).unwrap(),
        Key::Unsupported("Requester".to_string(), vec![])
    );
    let one = Key::Requester { user_login: "bob".to_string() }.serialize().unwrap();
    assert_eq!(
        Key::deserialize(&one).unwrap(),
        Key::Unsupported("Requester".to_string(), vec![text("bob")])
    );
    assert!(one.starts_with(&all[..all.len() - 1]));
}

#[test]
fn lowercase_requester_namespace_is_read() {
    assert_eq!(Key::deserialize(&array(&[text("requester")])).unwrap(), Key::Requesters);
    assert_eq!(
        Key::deserialize(&array(&[text("requester"), text("bob")])).unwrap(),
        Key::Requester { user_login: "bob".to_string() }
    );
}

#[test]
fn unknown_namespace_keeps_other_items() {
    let bytes = array(&[text("foo"), vec![0x01], vec![0x82, 0x01, 0x02]]);
    let k = Key::deserialize(&bytes).unwrap();
    assert_eq!(k, Key::Unsupported("foo".to_string(), vec![vec![0x01], vec![0x82, 0x01, 0x02]]));
    assert_eq!(k.serialize().unwrap(), bytes);
}

#[test]
fn definite_length_array_is_read() {
    let mut bytes = vec![0x82];
    bytes.extend(text("user"));
    bytes.extend(text("x"));
    assert_eq!(Key::deserialize(&bytes).unwrap(), Key::User { user_id: "x".to_string() });
}

#[test]
fn tagged_array_is_read() {
    let mut bytes = vec![0xc6, 0xd8, 0x20];
    bytes.extend(array(&[text("user"), text("x")]));
    assert_eq!(Key::deserialize(&bytes).unwrap(), Key::User { user_id: "x".to_string() });
}

#[test]
fn non_canonical_and_byte_strings_read_as_strings() {
    let long_head = vec![0x78, 0x04, b'u', b's', b'e', b'r'];
    let bytes = array(&[long_head, vec![0x41, b'x']]);
    assert_eq!(Key::deserialize(&bytes).unwrap(), Key::User { user_id: "x".to_string() });
}

#[test]
fn malformed_inputs() {
    assert_eq!(Key::deserialize(&[]), Err(KeyError::Malformed));
    assert_eq!(Key::deserialize(&[0xa0]), Err(KeyError::Malformed));
    assert_eq!(Key::deserialize(&[0x9f, 0x61, b'a']), Err(KeyError::Malformed));
    let mut trailing = array(&[text("user"), text("x")]);
    trailing.push(0x00);
    assert_eq!(Key::deserialize(&trailing), Err(KeyError::Malformed));
    assert_eq!(Key::deserialize(&[0x82, 0x61, b'a']), Err(KeyError::Malformed));
    assert_eq!(Key::deserialize(&array(&[vec![0x7c]])), Err(KeyError::Malformed));
}

#[test]
fn missing_namespace() {
    assert_eq!(Key::deserialize(&[0x9f, 0xff]), Err(KeyError::MissingNamespace));
    assert_eq!(Key::deserialize(&[0x80]), Err(KeyError::MissingNamespace));
}

#[test]
fn elements_that_are_not_strings() {
    assert_eq!(Key::deserialize(&array(&[vec![0x01]])), Err(KeyError::NotText));
    assert_eq!(Key::deserialize(&array(&[text("user"), vec![0xf5]])), Err(KeyError::NotText));
    assert_eq!(
        Key::deserialize(&array(&[text("connections"), text("u"), vec![0x01]])),
        Err(KeyError::NotText)
    );
}

#[test]
fn missing_fields() {
    assert_eq!(
        Key::deserialize(&array(&[text("connections")])),
        Err(KeyError::MissingField(Field::Name))
    );
    assert_eq!(
        Key::deserialize(&array(&[text("key-to-user-id")])),
        Err(KeyError::MissingField(Field::Key))
    );
    assert_eq!(
        Key::deserialize(&array(&[text("user-id-to-key")])),
        Err(KeyError::MissingField(Field::UserId))
    );
    assert_eq!(
        Key::deserialize(&array(&[text("user")])),
        Err(KeyError::MissingField(Field::UserId))
    );
    assert_eq!(
        Key::deserialize(&array(&[text("requester-releases")])),
        Err(KeyError::MissingField(Field::User))
    );
    assert_eq!(
        Key::deserialize(&array(&[text("requester-releases"), text("a")])),
        Err(KeyError::MissingField(Field::Repo))
    );
}

#[test]
fn trailing_elements() {
    assert_eq!(
        Key::deserialize(&array(&[text("user"), text("a"), text("b")])),
        Err(KeyError::TrailingElements)
    );
    assert_eq!(
        Key::deserialize(&array(&[text("requester"), text("a"), text("b")])),
        Err(KeyError::TrailingElements)
    );
    assert_eq!(
        Key::deserialize(&array(&[text("connections"), text("a"), text("b"), text("c")])),
        Err(KeyError::TrailingElements)
    );
}

#[test]
fn from_items_decides_by_namespace() {
    assert_eq!(
        Key::from_items(vec![text("user-id-to-key"), text("u")]),
        Ok(Key::UserIdToKey { user_id: "u".to_string() })
    );
    assert_eq!(Key::from_items(vec![]), Err(KeyError::MissingNamespace));
}
