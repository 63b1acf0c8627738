use roomstate::directory::{room_from_bytes, Data, PublicRooms};
use roomstate::error::ErrorKind;
use roomstate::ident::{is_room_id, is_user_id};
use roomstate::users::{checked_user, token_owner, user_from_bytes, Users};

#[test]
fn user_ids_are_judged() {
    assert!(is_user_id("@alice:example.org"));
    assert!(is_user_id("@alice:example.org:8448"));
    assert!(!is_user_id("alice:example.org"));
    assert!(!is_user_id("@alice"));
    assert!(!is_user_id("@alice:"));
    assert!(!is_user_id(""));
    assert!(!is_user_id("!room:example.org"));
}

#[test]
fn room_ids_are_judged() {
    assert!(is_room_id("!room:example.org"));
    assert!(is_room_id("!opaque"));
    assert!(!is_room_id("room:example.org"));
    assert!(!is_room_id(""));
    assert!(!is_room_id("!ro\0om"));
    let long = format!("!{}", "a".repeat(255));
    assert!(!is_room_id(&long));
    let fits = format!("!{}", "a".repeat(254));
    assert!(is_room_id(&fits));
}

#[test]
fn accounts_and_passwords() {
    let mut u = Users::new();
    assert!(!u.user_exists("@alice:example.org"));
    u.create("@alice:example.org", "hash1");
    assert!(u.user_exists("@alice:example.org"));
    assert!(!u.user_exists("@bob:example.org"));
    assert_eq!(u.password_hash("@alice:example.org").unwrap(), Some("hash1".to_string()));
    assert_eq!(u.password_hash("@bob:example.org").unwrap(), None);
    u.userid_password.insert(b"@carol:example.org", b"\xff\xfe");
    assert_eq!(u.password_hash("@carol:example.org").unwrap_err().kind(), ErrorKind::BadDatabase);
}

#[test]
fn profile_is_set_and_removed() {
    let mut u = Users::new();
    assert_eq!(u.displayname("@a:x").unwrap(), None);
    u.set_displayname("@a:x", Some("Alice".to_string()));
    assert_eq!(u.displayname("@a:x").unwrap(), Some("Alice".to_string()));
    u.set_displayname("@a:x", Some("Al".to_string()));
    assert_eq!(u.displayname("@a:x").unwrap(), Some("Al".to_string()));
    u.set_displayname("@a:x", None);
    assert_eq!(u.displayname("@a:x").unwrap(), None);
    assert_eq!(u.avatar_url("@a:x").unwrap(), None);
    u.set_avatar_url("@a:x", Some("mxc://x/1".to_string()));
    assert_eq!(u.avatar_url("@a:x").unwrap(), Some("mxc://x/1".to_string()));
    u.set_avatar_url("@a:x", None);
    assert_eq!(u.avatar_url("@a:x").unwrap(), None);
    assert_eq!(u.displayname("@a:x").unwrap(), None);
}

#[test]
fn device_needs_an_account() {
    let mut u = Users::new();
    let e = u.create_device("@alice:example.org", "PHONE", "token1").unwrap_err();
    assert_eq!(e.kind(), ErrorKind::BadRequest);
    assert_eq!(e.message(), "tried to create device for nonexistent user");
    assert!(u.userdeviceids.is_empty());
    assert_eq!(u.find_from_token("token1").unwrap(), None);
}

#[test]
fn token_needs_a_device() {
    let mut u = Users::new();
    u.create("@alice:example.org", "h");
    let e = u.set_token("@alice:example.org", "PHONE", "token1").unwrap_err();
    assert_eq!(e.kind(), ErrorKind::BadRequest);
    assert_eq!(e.message(), "Tried to set token for nonexistent device");
    assert!(u.token_userdeviceid.is_empty());
}

#[test]
fn token_finds_user_and_device() {
    let mut u = Users::new();
    u.create("@alice:example.org", "h");
    u.create_device("@alice:example.org", "PHONE", "token1").unwrap();
    assert_eq!(u.userdeviceids.get(b"@alice:example.org\xffPHONE"), Some(Vec::new()));
    assert_eq!(
        u.find_from_token("token1").unwrap(),
        Some(("@alice:example.org".to_string(), "PHONE".to_string()))
    );
    assert_eq!(u.find_from_token("token2").unwrap(), None);
    // A new token replaces the old one.
    u.set_token("@alice:example.org", "PHONE", "token2").unwrap();
    assert_eq!(u.find_from_token("token1").unwrap(), None);
    assert_eq!(
        u.find_from_token("token2").unwrap(),
        Some(("@alice:example.org".to_string(), "PHONE".to_string()))
    );
    assert_eq!(u.token_userdeviceid.len(), 1);
    assert_eq!(u.userdeviceid_token.get(b"@alice:example.org\xffPHONE"), Some(b"token2".to_vec()));
}

#[test]
fn token_value_is_split_at_the_separator() {
    assert_eq!(
        token_owner(b"@a:x.org\xffDEV").unwrap(),
        ("@a:x.org".to_string(), "DEV".to_string())
    );
    assert_eq!(token_owner(b"@a:x.org\xff").unwrap(), ("@a:x.org".to_string(), String::new()));
    // What follows a second separator is left out.
    assert_eq!(
        token_owner(b"@a:x.org\xffDEV\xffmore").unwrap(),
        ("@a:x.org".to_string(), "DEV".to_string())
    );
    assert_eq!(token_owner(b"@a:x.org").unwrap_err().kind(), ErrorKind::BadDatabase);
    assert_eq!(token_owner(b"").unwrap_err().kind(), ErrorKind::BadDatabase);
    assert_eq!(token_owner(b"nouser\xffDEV").unwrap_err().kind(), ErrorKind::BadDatabase);
    assert_eq!(token_owner(b"@a:x.org\xff\xc3").unwrap_err().kind(), ErrorKind::BadDatabase);
    assert_eq!(token_owner(b"\xc3\xffDEV").unwrap_err().kind(), ErrorKind::BadDatabase);
}

#[test]
fn stored_token_with_bad_value_is_bad_database() {
    let mut u = Users::new();
    u.token_userdeviceid.insert(b"t", b"garbage");
    assert_eq!(u.find_from_token("t").unwrap_err().kind(), ErrorKind::BadDatabase);
}

#[test]
fn users_are_listed_in_byte_order() {
    let mut u = Users::new();
    u.create("@bob:example.org", "h");
    u.create("@alice:example.org", "h");
    u.userid_password.insert(b"not a user", b"h");
    u.userid_password.insert(b"\xff", b"h");
    let all = u.iter();
    assert_eq!(all.len(), 4);
    assert_eq!(all[0].as_ref().unwrap(), "@alice:example.org");
    assert_eq!(all[1].as_ref().unwrap(), "@bob:example.org");
    assert_eq!(all[2].as_ref().unwrap_err().kind(), ErrorKind::BadDatabase);
    assert_eq!(all[3].as_ref().unwrap_err().kind(), ErrorKind::BadDatabase);
    assert!(Users::new().iter().is_empty());
}

#[test]
fn checked_user_goes_by_its_arguments() {
    assert_eq!(checked_user(Some("@a:x".to_string()), true).unwrap(), "@a:x");
    assert_eq!(checked_user(Some("anything".to_string()), true).unwrap(), "anything");
    assert_eq!(checked_user(Some("@a:x".to_string()), false).unwrap_err().kind(), ErrorKind::BadDatabase);
    assert_eq!(checked_user(None, false).unwrap_err().kind(), ErrorKind::BadDatabase);
    assert_eq!(checked_user(None, true).unwrap_err().kind(), ErrorKind::BadDatabase);
    assert_eq!(user_from_bytes(b"@a:example.org").unwrap(), "@a:example.org");
    assert!(user_from_bytes(b"a:example.org").is_err());
    assert!(user_from_bytes(b"@a:example.org\xff").is_err());
}

#[test]
fn public_room_directory() {
    let mut d = PublicRooms::new();
    assert!(!d.is_public_room("!a:x").unwrap());
    d.set_public("!b:x").unwrap();
    d.set_public("!a:x").unwrap();
    d.set_public("!a:x").unwrap();
    assert!(d.is_public_room("!a:x").unwrap());
    let rooms = d.public_rooms();
    assert_eq!(rooms.len(), 2);
    assert_eq!(rooms[0].as_ref().unwrap(), "!a:x");
    assert_eq!(rooms[1].as_ref().unwrap(), "!b:x");
    d.set_not_public("!a:x").unwrap();
    d.set_not_public("!never:x").unwrap();
    assert!(!d.is_public_room("!a:x").unwrap());
    assert_eq!(d.public_rooms().len(), 1);
    d.publicroomids.insert(b"#alias:x", b"");
    d.publicroomids.insert(b"!\xff", b"");
    let rooms = d.public_rooms();
    assert_eq!(rooms.len(), 3);
    assert_eq!(rooms[0].as_ref().unwrap(), "!b:x");
    assert_eq!(rooms[1].as_ref().unwrap_err().kind(), ErrorKind::BadDatabase);
    assert_eq!(rooms[2].as_ref().unwrap_err().kind(), ErrorKind::BadDatabase);
    assert_eq!(room_from_bytes(b"!r:x").unwrap(), "!r:x");
    assert!(room_from_bytes(b"r:x").is_err());
}
