use buscame_db::key::{Key, KeyError};
use buscame_db::store::{
    connection_scan_step, decode_string_value, requester_scan_step, scan_prefix, Database,
    DbError, ScanStep,
};

fn temp_tree() -> sled::Tree {
    let db = sled::Config::new().temporary(true).open().unwrap();
    db.open_tree("records").unwrap()
}

fn text(s: &str) -> Vec<u8> {
    let mut out = vec![0x60 + s.len() as u8];
    out.extend_from_slice(s.as_bytes());
    out
}

#[test]
fn user_is_read_back_after_it_is_written() {
    let db = Database::load(temp_tree()).unwrap();
    assert_eq!(db.get_user("42").unwrap(), None);
    db.insert_user("42", vec![1, 2, 3]).unwrap();
    assert_eq!(db.get_user("42").unwrap(), Some(vec![1, 2, 3]));
    assert_eq!(db.get_user("43").unwrap(), None);
}

#[test]
fn key_links_user_both_ways_and_is_deleted() {
    let db = Database::load(temp_tree()).unwrap();
    db.insert_user("u1", vec![9]).unwrap();
    db.insert_key("u1", "secret").unwrap();
    assert_eq!(db.get_key("u1").unwrap(), Some("secret".to_string()));
    assert_eq!(db.get_user_by_key("secret").unwrap(), Some(vec![9]));
    assert_eq!(db.get_user_by_key("other").unwrap(), None);
    db.delete_key("u1").unwrap();
    assert_eq!(db.get_key("u1").unwrap(), None);
    assert_eq!(db.get_user_by_key("secret").unwrap(), None);
    db.delete_key("u1").unwrap();
}

#[test]
fn key_value_that_is_not_a_string_reads_as_none() {
    let tree = temp_tree();
    let k = Key::UserIdToKey { user_id: "u".to_string() }.serialize().unwrap();
    tree.insert(k, vec![0x01]).unwrap();
    let db = Database::load(tree).unwrap();
    assert_eq!(db.get_key("u").unwrap(), None);
}

#[test]
fn connections_of_a_user_are_listed_in_key_order() {
    let tree = temp_tree();
    let db = Database::load(tree.clone()).unwrap();
    db.add_connection("u1", "b", vec![2]).unwrap();
    db.add_connection("u1", "a", vec![1]).unwrap();
    db.add_connection("u1x", "c", vec![3]).unwrap();
    let prefix_key = Key::ConnectionsByUserId { user_id: "u1".to_string() }.serialize().unwrap();
    tree.insert(prefix_key, vec![0]).unwrap();
    assert_eq!(db.connections_by_user("u1").unwrap(), vec![vec![1], vec![2]]);
    assert_eq!(db.connections_by_user("u1x").unwrap(), vec![vec![3]]);
    assert_eq!(db.connections_by_user("nobody").unwrap(), Vec::<Vec<u8>>::new());
    assert_eq!(db.get_connection("u1", "a").unwrap(), Some(vec![1]));
    db.delete_connection("u1", "a").unwrap();
    assert_eq!(db.get_connection("u1", "a").unwrap(), None);
    assert_eq!(db.connections_by_user("u1").unwrap(), vec![vec![2]]);
}

#[test]
fn requesters_written_by_the_store_are_not_listed() {
    let db = Database::load(temp_tree()).unwrap();
    db.insert_Requester("bob", vec![7]).unwrap();
    assert_eq!(db.get_Requester("bob").unwrap(), Some(vec![7]));
    assert_eq!(db.list_Requesters().unwrap(), vec![]);
}

#[test]
fn requesters_under_the_read_namespace_are_listed() {
    let tree = temp_tree();
    let mut k1 = vec![0x9f];
    k1.extend(text("requester"));
    k1.extend(text("amy"));
    k1.push(0xff);
    tree.insert(k1, vec![5]).unwrap();
    let db = Database::load(tree).unwrap();
    let found = db.list_Requesters().unwrap();
    assert_eq!(found.len(), 1);
    assert_eq!(found[0].user_login, "amy");
    assert_eq!(found[0].value, vec![5]);
}

#[test]
fn scan_stops_with_an_error_on_an_undecodable_key() {
    let tree = temp_tree();
    let mut bad = scan_prefix(&Key::ConnectionsByUserId { user_id: "u".to_string() });
    bad.push(0x01);
    bad.push(0xff);
    tree.insert(bad, vec![1]).unwrap();
    let db = Database::load(tree).unwrap();
    match db.connections_by_user("u") {
        Err(DbError::Key(KeyError::NotText)) => {}
        other => panic!("unexpected {:?}", other),
    }
}

#[test]
fn releases_are_read_back() {
    let db = Database::load(temp_tree()).unwrap();
    db.write_requester_releases("owner", "repo", vec![4, 4]).unwrap();
    assert_eq!(db.get_requester_releases("owner", "repo").unwrap(), Some(vec![4, 4]));
    assert_eq!(db.get_requester_releases("owner", "other").unwrap(), None);
}

#[test]
fn scan_steps() {
    let conn = Key::Connection { user_id: "u".to_string(), id: "i".to_string() };
    let all = Key::ConnectionsByUserId { user_id: "u".to_string() };
    let user = Key::User { user_id: "u".to_string() };
    assert_eq!(connection_scan_step("u", &conn.serialize().unwrap()), Ok(ScanStep::Take));
    assert_eq!(connection_scan_step("v", &conn.serialize().unwrap()), Ok(ScanStep::Stop));
    assert_eq!(connection_scan_step("u", &all.serialize().unwrap()), Ok(ScanStep::Skip));
    assert_eq!(connection_scan_step("u", &user.serialize().unwrap()), Ok(ScanStep::Stop));
    assert_eq!(connection_scan_step("u", &[0x00]), Err(KeyError::Malformed));
    let mut lower = vec![0x9f];
    lower.extend(text("requester"));
    lower.extend(text("z"));
    lower.push(0xff);
    assert_eq!(requester_scan_step(&lower), Ok(Some("z".to_string())));
    assert_eq!(requester_scan_step(&user.serialize().unwrap()), Ok(None));
    assert_eq!(requester_scan_step(&[]), Err(KeyError::Malformed));
}

#[test]
fn string_values_and_prefixes() {
    assert_eq!(decode_string_value(None), None);
    assert_eq!(decode_string_value(Some(text("abc"))), Some("abc".to_string()));
    assert_eq!(decode_string_value(Some(vec![0x01])), None);
    let prefix = scan_prefix(&Key::Requesters);
    let mut expected = vec![0x9f];
    expected.extend(text("Requester"));
    assert_eq!(prefix, expected);
}

use buscame_db::store::{
    connection_slot, connections_scan_start, key_link_ops, key_owner_slot, key_unlink_ops,
    owner_user_slot, releases_slot, requester_slot, requesters_scan_start, user_key_slot, user_slot,
    ConnectionScan, Operation, RequesterScan,
};

#[test]
fn slots_are_the_key_bytes() {
    assert_eq!(user_slot("7"), Key::User { user_id: "7".to_string() }.serialize().unwrap());
    assert_eq!(
        requester_slot("bob"),
        Key::Requester { user_login: "bob".to_string() }.serialize().unwrap()
    );
    assert_eq!(
        user_key_slot("7"),
        Key::UserIdToKey { user_id: "7".to_string() }.serialize().unwrap()
    );
    assert_eq!(key_owner_slot("k"), Key::KeyToUserId { key: "k".to_string() }.serialize().unwrap());
    assert_eq!(
        connection_slot("7", "c"),
        Key::Connection { user_id: "7".to_string(), id: "c".to_string() }.serialize().unwrap()
    );
    assert_eq!(
        releases_slot("o", "r"),
        Key::requesterReleases { user: "o".to_string(), repo: "r".to_string() }.serialize().unwrap()
    );
    assert_eq!(requesters_scan_start(), scan_prefix(&Key::Requesters));
    assert_eq!(
        connections_scan_start("7"),
        scan_prefix(&Key::ConnectionsByUserId { user_id: "7".to_string() })
    );
}

#[test]
fn key_link_and_unlink_writes() {
    assert_eq!(
        key_link_ops("u", "k"),
        vec![
            Operation::Insert(user_key_slot("u"), text("k")),
            Operation::Insert(key_owner_slot("k"), text("u")),
        ]
    );
    assert_eq!(key_unlink_ops("u", None), vec![]);
    assert_eq!(key_unlink_ops("u", Some(vec![0x01])), vec![]);
    assert_eq!(
        key_unlink_ops("u", Some(text("k"))),
        vec![Operation::Remove(user_key_slot("u")), Operation::Remove(key_owner_slot("k"))]
    );
}

#[test]
fn owner_slot_follows_the_stored_user_id() {
    assert_eq!(owner_user_slot(None), None);
    assert_eq!(owner_user_slot(Some(vec![0xf5])), None);
    assert_eq!(owner_user_slot(Some(text("42"))), Some(user_slot("42")));
}

#[test]
fn requester_scan_stops_at_the_first_other_key() {
    let mut lower = vec![0x9f];
    lower.extend(text("requester"));
    lower.extend(text("amy"));
    lower.push(0xff);
    let mut scan = RequesterScan::new();
    scan.feed(lower.clone(), vec![1]);
    assert!(scan.is_running());
    scan.feed(user_slot("x"), vec![2]);
    assert!(!scan.is_running());
    scan.feed(lower, vec![3]);
    let found = scan.finish().unwrap();
    assert_eq!(found.len(), 1);
    assert_eq!(found[0].user_login, "amy");
    assert_eq!(found[0].value, vec![1]);
}

#[test]
fn connection_scan_of_a_shorter_id_stops_at_a_longer_one() {
    let mut scan = ConnectionScan::new("1002");
    scan.feed(connection_slot("10029", "PDF"), vec![1]);
    assert!(!scan.is_running());
    assert_eq!(scan.finish().unwrap(), Vec::<Vec<u8>>::new());

    let mut scan = ConnectionScan::new("1002");
    scan.feed(Key::ConnectionsByUserId { user_id: "1002".to_string() }.serialize().unwrap(), vec![0]);
    scan.feed(connection_slot("1002", "a"), vec![1]);
    scan.feed(connection_slot("1002", "b"), vec![2]);
    assert!(scan.is_running());
    assert_eq!(scan.finish().unwrap(), vec![vec![1], vec![2]]);

    let mut scan = ConnectionScan::new("1002");
    scan.feed(vec![0x00], vec![1]);
    assert_eq!(scan.finish(), Err(KeyError::Malformed));
}

#[test]
fn longer_user_id_is_not_listed_for_a_shorter_one() {
    let db = Database::load(temp_tree()).unwrap();
    db.add_connection("10029", "PDF", vec![9]).unwrap();
    assert_eq!(db.connections_by_user("1002").unwrap(), Vec::<Vec<u8>>::new());
    assert_eq!(db.connections_by_user("10029").unwrap(), vec![vec![9]]);
}
