use user_lib::StoreError;
use user_lib::UserManager;

#[test]
fn test_round_trip_preserves_every_field() {
    let mut m = UserManager::new();
    m.add_user("Ann \"the boss\" O'Hara".to_string(), "ann@x.com".to_string(), 25).unwrap();
    m.add_user("Bob\\Backslash".to_string(), "bob@x.com".to_string(), 40).unwrap();
    m.add_user("Ærøskøbing 人".to_string(), "uni@x.com".to_string(), 0).unwrap();
    let text = m.to_json();
    let mut n = UserManager::new();
    n.load_from_json(&text).unwrap();
    let before = m.list_users();
    let after = n.list_users();
    assert_eq!(before, after);
}

#[test]
fn test_round_trip_resets_counter_past_highest() {
    let mut m = UserManager::new();
    assert_eq!(m.add_user("Ann".to_string(), "ann@x.com".to_string(), 25).unwrap(), 1);
    assert_eq!(m.add_user("Bob".to_string(), "bob@x.com".to_string(), 40).unwrap(), 2);
    m.remove_user(1).unwrap();
    let text = m.to_json();
    let mut n = UserManager::new();
    n.load_from_json(&text).unwrap();
    let users = n.list_users();
    assert_eq!(users.len(), 1);
    assert_eq!(users[0].id, 2);
    assert_eq!(users[0].name, "Bob");
    assert_eq!(n.add_user("Cid".to_string(), "cid@x.com".to_string(), 50).unwrap(), 3);
}

#[test]
fn test_counter_resets_to_one_when_all_removed_before_save() {
    let mut m = UserManager::new();
    assert_eq!(m.add_user("Ann".to_string(), "ann@x.com".to_string(), 25).unwrap(), 1);
    assert_eq!(m.add_user("Bob".to_string(), "bob@x.com".to_string(), 40).unwrap(), 2);
    m.remove_user(1).unwrap();
    m.remove_user(2).unwrap();
    let text = m.to_json();
    let mut n = UserManager::new();
    n.load_from_json(&text).unwrap();
    assert_eq!(n.list_users().len(), 0);
    assert_eq!(n.add_user("Cid".to_string(), "cid@x.com".to_string(), 50).unwrap(), 1);
}

#[test]
fn test_counter_within_session_never_reuses() {
    let mut m = UserManager::new();
    assert_eq!(m.add_user("Ann".to_string(), "ann@x.com".to_string(), 25).unwrap(), 1);
    assert_eq!(m.add_user("Bob".to_string(), "bob@x.com".to_string(), 40).unwrap(), 2);
    m.remove_user(2).unwrap();
    assert_eq!(m.add_user("Cid".to_string(), "cid@x.com".to_string(), 50).unwrap(), 3);
}

#[test]
fn test_json_shape_is_the_documented_mapping() {
    let mut m = UserManager::new();
    m.add_user("Ann".to_string(), "ann@x.com".to_string(), 25).unwrap();
    let text = m.to_json();
    let v: serde_json::Value = serde_json::from_str(&text).unwrap();
    let obj = v.as_object().unwrap();
    assert_eq!(obj.len(), 1);
    let rec = obj.get("1").unwrap();
    assert_eq!(rec.get("id").unwrap().as_u64(), Some(1));
    assert_eq!(rec.get("name").unwrap().as_str(), Some("Ann"));
    assert_eq!(rec.get("email").unwrap().as_str(), Some("ann@x.com"));
    assert_eq!(rec.get("age").unwrap().as_u64(), Some(25));
}

#[test]
fn test_load_handwritten_mapping() {
    let text = "{\n  \"2\": { \"id\": 2, \"name\": \"Bob\", \"email\": \"bob@x.com\", \"age\": 40 }\n}";
    let mut m = UserManager::new();
    m.load_from_json(text).unwrap();
    let u = m.get_user(2).unwrap();
    assert_eq!(u.name, "Bob");
    assert_eq!(u.email, "bob@x.com");
    assert_eq!(u.age, 40);
    assert_eq!(m.add_user("Cid".to_string(), "cid@x.com".to_string(), 50).unwrap(), 3);
}

#[test]
fn test_load_replaces_previous_contents() {
    let mut m = UserManager::new();
    m.add_user("Old".to_string(), "old@x.com".to_string(), 70).unwrap();
    m.load_from_json("{}").unwrap();
    assert_eq!(m.list_users().len(), 0);
    assert_eq!(m.add_user("Ann".to_string(), "ann@x.com".to_string(), 25).unwrap(), 1);
}

#[test]
fn test_load_does_not_revalidate_old_records() {
    let text = "{ \"1\": { \"id\": 1, \"name\": \"\", \"email\": \"no-at-sign\", \"age\": 200 } }";
    let mut m = UserManager::new();
    m.load_from_json(text).unwrap();
    let u = m.get_user(1).unwrap();
    assert_eq!(u.name, "");
    assert_eq!(u.email, "no-at-sign");
    assert_eq!(u.age, 200);
}

#[test]
fn test_load_rejects_text_that_is_not_a_mapping() {
    let mut m = UserManager::new();
    m.add_user("Ann".to_string(), "ann@x.com".to_string(), 25).unwrap();
    for text in ["not json at all", "[1, 2]", "{ \"x\": { \"id\": 1 } }", "{ \"1\": 5 }"] {
        assert_eq!(m.load_from_json(text), Err(StoreError::Malformed));
    }
    let users = m.list_users();
    assert_eq!(users.len(), 1);
    assert_eq!(users[0].name, "Ann");
}

#[test]
fn test_load_rejects_missing_or_ill_typed_fields() {
    let mut m = UserManager::new();
    let cases = [
        "{ \"1\": { \"id\": 1, \"name\": \"A\", \"email\": \"a@b\" } }",
        "{ \"1\": { \"id\": 1, \"name\": 7, \"email\": \"a@b\", \"age\": 3 } }",
        "{ \"1\": { \"id\": 1, \"name\": \"A\", \"email\": \"a@b\", \"age\": 300 } }",
        "{ \"1\": { \"id\": 1, \"name\": \"A\", \"email\": \"a@b\", \"age\": -1 } }",
        "{ \"1\": { \"id\": \"1\", \"name\": \"A\", \"email\": \"a@b\", \"age\": 3 } }",
    ];
    for text in cases {
        assert_eq!(m.load_from_json(text), Err(StoreError::Malformed));
    }
}

#[test]
fn test_load_rejects_identifier_field_unequal_to_key() {
    let text = "{ \"5\": { \"id\": 7, \"name\": \"A\", \"email\": \"a@b\", \"age\": 3 } }";
    let mut m = UserManager::new();
    assert_eq!(m.load_from_json(text), Err(StoreError::Malformed));
}

#[test]
fn test_end_to_end_scenario() {
    let mut m = UserManager::new();
    assert_eq!(m.add_user("Ann".to_string(), "ann@x.com".to_string(), 25).unwrap(), 1);
    assert_eq!(m.add_user("Bob".to_string(), "bob@x.com".to_string(), 40).unwrap(), 2);
    m.remove_user(1).unwrap();
    let text = m.to_json();
    let mut n = UserManager::new();
    n.load_from_json(&text).unwrap();
    let users = n.list_users();
    assert_eq!(users.len(), 1);
    assert_eq!(users[0].id, 2);
    assert_eq!(users[0].name, "Bob");
    assert_eq!(n.add_user("Cid".to_string(), "cid@x.com".to_string(), 50).unwrap(), 3);
}
