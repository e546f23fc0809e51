use tempkeys::errors::{Errno, OsError};
use tempkeys::sys::{
    accept, add_user_key, buffer, describe, describe_reply, draw_step, join_fresh_session_keyring,
    key_of, link, list_keyring, parse_description, read, revoke, search, search_reply, serial,
    session_is_dead, set_perm, set_timeout, unlink, Call, Draw, PERM_OWNER_ALL, SESSION_KEYRING,
    USER_KEYRING,
};

fn control(call: Call) -> (i64, i64, i64) {
    match call {
        Call::Control { command, first, second } => (command, first, second),
        _ => panic!("not a plain call"),
    }
}

fn failed(errno: Errno) -> Result<i64, OsError> {
    Err(OsError { errno, text: "why".to_string() })
}

#[test]
fn plain_calls_have_their_numbers() {
    assert_eq!(control(set_perm(7, PERM_OWNER_ALL)), (5, 7, 0x003f_0000));
    assert_eq!(control(set_timeout(7, u32::MAX)), (15, 7, 4294967295));
    assert_eq!(control(revoke(7)), (3, 7, 0));
    assert_eq!(control(link(7, USER_KEYRING)), (8, 7, -4));
    assert_eq!(control(unlink(7, SESSION_KEYRING)), (9, 7, -3));
    assert_eq!(control(serial(SESSION_KEYRING)), (0, -3, 0));
    assert!(matches!(join_fresh_session_keyring(), Call::Join { command: 1 }));
    assert!(matches!(read(5), Call::Fill { command: 11, id: 5 }));
    assert!(matches!(describe(5), Call::Fill { command: 6, id: 5 }));
}

#[test]
fn keys_are_added_as_user_keys() {
    match add_user_key("d", b"p\0q", SESSION_KEYRING) {
        Ok(Call::AddKey { kind, desc, payload, ring }) => {
            assert_eq!(kind, b"user\0");
            assert_eq!(desc, b"d\0");
            assert_eq!(payload.0, b"p\0q");
            assert_eq!(ring, -3);
        }
        _ => panic!("no call to add a key"),
    }
    match add_user_key("a\0b", b"", SESSION_KEYRING) {
        Err(e) => assert!(e.errno == Errno::Other && e.text == "embedded NUL"),
        Ok(_) => panic!("a NUL was taken"),
    }
}

#[test]
fn searches_name_type_and_description() {
    match search(USER_KEYRING, "user", "é") {
        Ok(Call::Search { command, ring, kind, desc }) => {
            assert_eq!((command, ring), (10, -4));
            assert_eq!(kind, b"user\0");
            assert_eq!(desc, "é\0".as_bytes());
        }
        _ => panic!("no call to search"),
    }
    assert!(search(USER_KEYRING, "user", "\0").is_err());
    assert!(search(USER_KEYRING, "u\0", "x").is_err());
}

#[test]
fn missing_keys_are_no_error() {
    assert!(matches!(search_reply(Ok(12)), Ok(Some(12))));
    for errno in [Errno::NoKey, Errno::KeyExpired, Errno::KeyRevoked] {
        assert!(matches!(search_reply(failed(errno)), Ok(None)));
        assert!(session_is_dead(&failed(errno)));
    }
    for errno in [Errno::Perm, Errno::NoSys, Errno::Quota, Errno::Other] {
        assert!(search_reply(failed(errno)).is_err());
        assert!(!session_is_dead(&failed(errno)));
    }
    assert!(!session_is_dead(&Ok(3)));
    assert_eq!(key_of(0x7fff_ffff), i32::MAX);
}

#[test]
fn buffers_grow_until_the_reply_fits() {
    let mut buf = buffer(4);
    buf.0.copy_from_slice(b"abcd");
    assert!(!accept(&mut buf, 6));
    assert_eq!(buf.0, vec![0; 6]);
    buf.0.copy_from_slice(b"abcdef");
    assert!(accept(&mut buf, 5));
    assert_eq!(buf.0, b"abcde");
    assert!(accept(&mut buf, 5));
}

#[test]
fn keyrings_are_lists_of_native_integers() {
    let mut raw = Vec::new();
    for id in [1i32, -4, i32::MIN, 0x01020304] {
        raw.extend_from_slice(&id.to_ne_bytes());
    }
    raw.push(9);
    assert_eq!(list_keyring(&raw), vec![1, -4, i32::MIN, 0x01020304]);
    assert!(list_keyring(&raw[..3]).is_empty());
}

#[test]
fn descriptions_are_taken_apart() {
    let of = |s: &str| parse_description(s);
    assert_eq!(
        of("user;1000;1000;3f010000;tempkeys:key:a:00"),
        ("user".to_string(), "tempkeys:key:a:00".to_string())
    );
    assert_eq!(of("k;1;2;3;a;b;"), ("k".to_string(), "a;b;".to_string()));
    assert_eq!(of("k;1;2;3"), ("k".to_string(), String::new()));
    assert_eq!(of(""), (String::new(), String::new()));
    assert_eq!(
        describe_reply(b"user;0;0;0;d\xff\0\0"),
        ("user".to_string(), "d\u{fffd}".to_string())
    );
    assert_eq!(
        describe_reply(b"user;0;0;0;\xc3\xa9\0"),
        ("user".to_string(), "é".to_string())
    );
}

#[test]
fn random_bytes_are_drawn_until_the_buffer_is_full() {
    assert!(matches!(draw_step(32, 0, 32, false), Draw::Full));
    assert!(matches!(draw_step(32, 8, 10, false), Draw::From(18)));
    assert!(matches!(draw_step(32, 8, -1, true), Draw::From(8)));
    assert!(matches!(draw_step(32, 8, -1, false), Draw::Failed));
}
