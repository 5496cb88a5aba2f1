use rust_ssh::database::{Database, User};

#[test]
fn test_add_user() {
    let mut db = Database::new();
    let username = "testuser".to_string();
    let password = "testpassword".to_string();
    let pubkey = "testpubkey".to_string();
    db.add_user(username.clone(), password.clone(), pubkey.clone()).unwrap();
    let user = db.get_user(&username).unwrap();
    assert_eq!(user.username, username);
    assert_eq!(user.password, password);
    assert_eq!(user.pubkey, pubkey);
}

#[test]
fn test_remove_user() {
    let mut db = Database::new();
    let username = "testuser".to_string();
    let password = "testpassword".to_string();
    let pubkey = "testpubkey".to_string();
    db.add_user(username.clone(), password.clone(), pubkey.clone()).unwrap();
    db._remove_user(&username);
    assert!(db.get_user(&username).is_none());
}

#[test]
fn test_save_users() {
    let mut db = Database::new();
    let username = "testuser".to_string();
    let password = "testpassword".to_string();
    let pubkey = "testpubkey".to_string();
    db.add_user(username.clone(), password.clone(), pubkey.clone()).unwrap();
    let saved = db.users().clone();
    let mut new_db = Database::new();
    new_db.load_users(saved);
    assert_eq!(new_db.get_user(&username).unwrap().username, username);
}

#[test]
fn adding_a_known_user_fails_and_keeps_the_record() {
    let mut db = Database::new();
    db.add_user("u".to_string(), "p1".to_string(), String::new()).unwrap();
    assert!(db.add_user("u".to_string(), "p2".to_string(), String::new()).is_err());
    assert_eq!(db.get_user("u").unwrap().password, "p1");
    assert_eq!(db.users().len(), 1);
}

#[test]
fn loading_replaces_records_of_the_same_name() {
    let mut db = Database::new();
    db.add_user("a".to_string(), "old".to_string(), String::new()).unwrap();
    db.add_user("b".to_string(), "kept".to_string(), String::new()).unwrap();
    let loaded = vec![
        User::_new("a".to_string(), "first".to_string(), String::new()),
        User::_new("c".to_string(), "new".to_string(), String::new()),
        User::_new("a".to_string(), "second".to_string(), "k".to_string()),
    ];
    db.load_users(loaded);
    assert_eq!(db.users().len(), 3);
    assert_eq!(db.get_user("a").unwrap().password, "second");
    assert_eq!(db.get_user("a").unwrap().pubkey, "k");
    assert_eq!(db.get_user("b").unwrap().password, "kept");
    assert_eq!(db.get_user("c").unwrap().password, "new");
    assert!(db.get_user("d").is_none());
}

#[test]
fn removing_an_unknown_user_changes_nothing() {
    let mut db = Database::new();
    db.add_user("a".to_string(), "p".to_string(), String::new()).unwrap();
    db._remove_user("b");
    assert!(db.get_user("a").is_some());
    assert_eq!(db.users().len(), 1);
}

#[test]
fn test_load_users() {
    let mut db = Database::new();
    let loaded = vec![User::_new("testuser".to_string(), "testpassword".to_string(), "testpubkey".to_string())];
    db.load_users(loaded);
    assert!(!db.users().is_empty());
}
