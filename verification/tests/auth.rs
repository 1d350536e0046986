use camp::auth::{constant_time_eq, hash_with_salt, AuthResult, Db, DbError};

static USERS: &[&str] = &["dan", "griffin", "krista"];
static PASSWORDS: &[&str] = &["booga", "purple", "aqua"];
static SALTS: &[&str] = &["asdf", "hjkl", "qwer"];

static TEST_CONNECTION: &str =
    "host=localhost user=camp_test password='camp_test' dbname=camp_auth_test";

#[test]
fn reset_db() {
    let mut db = Db::new(TEST_CONNECTION.to_owned());
    db.add_users(USERS, PASSWORDS, SALTS).unwrap();
    db.check_password_and_issue_key(USERS[0], PASSWORDS[0], SALTS[0], 10).unwrap();
    assert_eq!(db.delete_users(USERS), Ok(3));
    assert!(db.users.is_empty());
    assert!(db.keys.is_empty());
    db.add_users(USERS, PASSWORDS, SALTS).unwrap();
    db.check_password_and_issue_key(USERS[1], PASSWORDS[1], SALTS[1], 10).unwrap();
    db.set_key_length(7);
    db.nuke_database();
    assert!(db.users.is_empty() && db.keys.is_empty());
    assert_eq!(db.key_length, 7);
    assert!(db.is_wf());
}

#[test]
fn populate_db() {
    let mut db = Db::new(TEST_CONNECTION.to_owned());

    let n_users: usize = USERS.len();
    assert_eq!(db.add_users(USERS, PASSWORDS, SALTS).unwrap(), n_users as u64);

    for n in 0..n_users {
        let (uname, pwd, salt) = (USERS[n], PASSWORDS[n], SALTS[n]);
        assert_eq!(db.check_password(uname, pwd, salt).unwrap(), AuthResult::Okay);
    }

    assert_eq!(
        db.check_password(USERS[1], "mama moo moo", SALTS[1]).unwrap(),
        AuthResult::BadPassword
    );
    assert_eq!(
        db.check_password(USERS[1], PASSWORDS[1], "not a real salt").unwrap(),
        AuthResult::BadPassword
    );

    db.delete_users(&USERS[1..]).unwrap();

    assert_eq!(
        db.check_password(USERS[1], PASSWORDS[1], SALTS[1]).unwrap(),
        AuthResult::NoSuchUser
    );
    assert_eq!(
        db.check_password(USERS[0], PASSWORDS[0], SALTS[0]).unwrap(),
        AuthResult::Okay
    );
}

#[test]
fn issue_keys() {
    let mut db = Db::new(TEST_CONNECTION.to_owned());

    db.add_users(USERS, PASSWORDS, SALTS).unwrap();
    let key = match db.check_password_and_issue_key(USERS[0], PASSWORDS[0], SALTS[0], 1000).unwrap() {
        AuthResult::Key(k) => k,
        x @ _ => {
            panic!("Expected AuthResult::Key(_), got {:?}", &x);
        },
    };

    assert_eq!(db.check_key(USERS[0], &key, 1001).unwrap(), AuthResult::Okay);
    assert_eq!(db.check_key(USERS[1], &key, 1001).unwrap(), AuthResult::InvalidKey);
    assert_eq!(db.check_key(USERS[0], "wrong_key", 1001).unwrap(), AuthResult::InvalidKey);

    db.set_key_life(1_u64);
    let key = match db.check_password_and_issue_key(USERS[1], PASSWORDS[1], SALTS[1], 2000).unwrap() {
        AuthResult::Key(k) => k,
        x @ _ => {
            panic!("Expected AuthResult::Key(_), got {:?}", &x);
        },
    };
    assert_eq!(db.check_key(USERS[1], &key, 2000).unwrap(), AuthResult::Okay);
    // A second and a half later, counted in whole seconds.
    assert_eq!(db.check_key(USERS[1], &key, 2002).unwrap(), AuthResult::InvalidKey);
    assert_eq!(db.cull_old_keys(2002), Ok(2));
    assert!(db.keys.is_empty());
}

#[test]
fn login_and_key_renewal() {
    let mut db = Db::new(String::new());
    let ttl = 1200;
    db.add_user("alice", "secret", "S").unwrap();
    assert_eq!(db.check_password("alice", "secret", "S"), Ok(AuthResult::Okay));
    let k = match db.check_password_and_issue_key("alice", "secret", "S", 5000) {
        Ok(AuthResult::Key(k)) => k,
        other => panic!("Expected a key, got {:?}", other),
    };
    assert_eq!(db.keys.len(), 1);
    assert_eq!(db.keys[0].last_used, 5000);
    assert_eq!(db.keys[0].uname, "alice");
    assert_eq!(db.keys[0].key, k);
    assert_eq!(db.check_key("alice", &k, 5100), Ok(AuthResult::Okay));
    assert_eq!(db.keys[0].last_used, 5100);
    // The life runs from the last use.
    assert_eq!(db.check_key("alice", &k, 5100 + ttl - 1), Ok(AuthResult::Okay));
    assert_eq!(db.keys[0].last_used, 5100 + ttl - 1);
    let last = 5100 + ttl - 1;
    assert_eq!(db.check_key("alice", &k, last + ttl + 1), Ok(AuthResult::InvalidKey));
    // A key that is refused is not marked as used.
    assert_eq!(db.keys[0].last_used, last);
    // Exactly at the end of its life a key is no longer good.
    assert_eq!(db.check_key("alice", &k, last + ttl), Ok(AuthResult::InvalidKey));
    assert_eq!(db.check_key("alice", &k, last + ttl - 1), Ok(AuthResult::Okay));
}

#[test]
fn wrong_passwords_issue_no_key() {
    let mut db = Db::new(String::new());
    db.add_user("alice", "secret", "S").unwrap();
    assert_eq!(
        db.check_password_and_issue_key("alice", "Secret", "S", 1),
        Ok(AuthResult::BadPassword)
    );
    assert_eq!(
        db.check_password_and_issue_key("alice", "secret", "T", 1),
        Ok(AuthResult::BadPassword)
    );
    assert_eq!(
        db.check_password_and_issue_key("bob", "secret", "S", 1),
        Ok(AuthResult::NoSuchUser)
    );
    assert!(db.keys.is_empty());
}

#[test]
fn bulk_insert_atomicity() {
    let mut db = Db::new(String::new());
    let r = db.add_users(&["alice", "bob", "alice"], &["a", "b", "c"], &["1", "2", "3"]);
    assert!(r.is_err());
    assert!(db.users.is_empty());
    assert_eq!(db.check_password("bob", "b", "2"), Ok(AuthResult::NoSuchUser));
    // A name that is on record refuses the batch too.
    db.add_user("carol", "pw", "s").unwrap();
    let r = db.add_users(&["bob", "carol"], &["b", "c"], &["2", "3"]);
    assert!(r.is_err());
    assert_eq!(db.users.len(), 1);
    assert_eq!(db.check_password("bob", "b", "2"), Ok(AuthResult::NoSuchUser));
    assert_eq!(db.check_password("carol", "pw", "s"), Ok(AuthResult::Okay));
    assert!(db.add_user("carol", "other", "s").is_err());
    assert_eq!(db.check_password("carol", "pw", "s"), Ok(AuthResult::Okay));
    // Lists of different lengths are refused.
    assert_eq!(
        db.add_users(&["x", "y"], &["a"], &["1", "2"]).unwrap_err().display(),
        "Number of unames (2) and passwords (1) must match."
    );
    assert_eq!(
        db.add_users(&["x", "y"], &["a", "b"], &["1"]).unwrap_err().display(),
        "Number of passwords (2) and salts (1) must match."
    );
    assert_eq!(db.users.len(), 1);
    assert_eq!(db.add_users(&[], &[], &[]), Ok(0));
}

#[test]
fn error_words() {
    let e: DbError = DbError("something".to_string());
    assert_eq!(e.display(), "something");
    let mut db = Db::new(String::new());
    db.add_user("carol", "pw", "s").unwrap();
    match db.add_user("carol", "pw", "s") {
        Err(e) => assert!(e.display().contains("carol")),
        Ok(()) => panic!("a second carol went in"),
    }
}

#[test]
fn hashes_are_blake3_of_password_and_salt() {
    let h = hash_with_salt("booga", b"asdf");
    assert_eq!(h, blake3::hash(b"boogaasdf").to_hex().as_str());
    assert_eq!(h.len(), 64);
    assert!(h.chars().all(|c| c.is_ascii_digit() || ('a'..='f').contains(&c)));
    assert_ne!(h, "boogaasdf");
    // The hash of nothing, as the crate's documentation gives it.
    assert_eq!(
        hash_with_salt("", b""),
        "af1349b9f5f9a1a6a0404dea36dcc9499bcb25c9adc112b7cc9a93cae41f3262"
    );
    // Where the password ends and the salt begins makes no difference.
    assert_eq!(hash_with_salt("ab", b"c"), hash_with_salt("a", b"bc"));
    assert_ne!(hash_with_salt("ab", b"c"), hash_with_salt("ab", b"d"));
    assert_eq!(hash_with_salt("pä", "ß".as_bytes()), blake3::hash("päß".as_bytes()).to_hex().as_str());
}

#[test]
fn texts_are_compared_in_full() {
    assert!(constant_time_eq("", ""));
    assert!(constant_time_eq("abc", "abc"));
    assert!(!constant_time_eq("abc", "abd"));
    assert!(!constant_time_eq("abc", "xbc"));
    assert!(!constant_time_eq("abc", "ab"));
    assert!(!constant_time_eq("ab", "abc"));
    assert!(constant_time_eq("päß", "päß"));
}

#[test]
fn keys_are_made_of_the_key_characters() {
    let mut db = Db::new("c".to_string());
    assert_eq!(db.connection_string, "c");
    assert_eq!(db.key_length, 32);
    assert_eq!(db.key_life, 1200);
    assert_eq!(db.key_chars.len(), 89);
    assert_eq!(
        db.key_chars.iter().collect::<String>(),
        "abcdefghijklmnopqrstuvwxyzABCDEFGHIJKLMNOPQRSTUVWXYZ0123456789!@#$%^&*()-_=+[]{}|/?;:.<>~"
    );
    let mut each_once: Vec<char> = db.key_chars.clone();
    each_once.sort();
    each_once.dedup();
    assert_eq!(each_once.len(), 89);
    let k = db.generate_key();
    assert_eq!(k.chars().count(), 32);
    assert!(k.chars().all(|c| db.key_chars.contains(&c)));
    db.set_key_chars("xy");
    db.set_key_length(100);
    let k = db.generate_key();
    assert_eq!(k.len(), 100);
    assert!(k.chars().all(|c| c == 'x' || c == 'y'));
    assert!(k.contains('x') && k.contains('y'));
    // Nothing is no alphabet.
    db.set_key_chars("");
    assert_eq!(db.key_chars, vec!['x', 'y']);
    db.set_key_chars("ü");
    db.set_key_length(3);
    assert_eq!(db.generate_key(), "üüü");
    db.set_key_length(0);
    assert_eq!(db.generate_key(), "");
    db.set_key_life(7);
    assert_eq!(db.key_life, 7);
}

#[test]
fn keys_that_ran_out_are_culled() {
    let mut db = Db::new(String::new());
    db.set_key_life(100);
    db.add_users(&["a", "b"], &["pa", "pb"], &["sa", "sb"]).unwrap();
    db.issue_key("a", "k1".to_string(), 10).unwrap();
    db.issue_key("b", "k1".to_string(), 50).unwrap();
    db.issue_key("a", "k2".to_string(), 90).unwrap();
    assert_eq!(db.keys.len(), 3);
    // The same key for the same user again: the row is marked, not doubled.
    db.issue_key("a", "k1".to_string(), 20).unwrap();
    assert_eq!(db.keys.len(), 3);
    assert_eq!(db.keys[0].last_used, 20);
    // At 120 no life has run out before now.
    assert_eq!(db.cull_old_keys(120), Ok(0));
    assert_eq!(db.cull_old_keys(121), Ok(1));
    let left: Vec<(&str, &str)> = db.keys.iter().map(|k| (k.uname.as_str(), k.key.as_str())).collect();
    assert_eq!(left, vec![("b", "k1"), ("a", "k2")]);
    // What culling leaves at the very end of its life is not good any more.
    assert_eq!(db.check_key("b", "k1", 150), Ok(AuthResult::InvalidKey));
    assert_eq!(db.check_key("a", "k2", 150), Ok(AuthResult::Okay));
    // Deleting a user takes the user's keys with it.
    assert_eq!(db.delete_users(&["a", "nobody"]), Ok(1));
    assert_eq!(db.keys.len(), 1);
    assert_eq!(db.keys[0].uname, "b");
    assert_eq!(db.users.len(), 1);
}

#[test]
fn passwords_can_be_set_anew() {
    let mut db = Db::new(String::new());
    db.add_user("a", "old", "salt").unwrap();
    assert!(db.set_password("b", "new", "salt").is_err());
    db.set_password("a", "new", "salt").unwrap();
    assert_eq!(db.check_password("a", "old", "salt"), Ok(AuthResult::BadPassword));
    assert_eq!(db.check_password("a", "new", "salt"), Ok(AuthResult::Okay));
    assert_eq!(db.users.len(), 1);
}
