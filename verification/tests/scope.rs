use tempkeys::errors::{Errno, OsError};
use tempkeys::scope::{
    base_dir, path, pick, runtime_dir, target, Root, RuntimeFacts, Scope, SessionReply, Target,
};
use tempkeys::sys::{
    PERM_OWNER_ALL, PERM_POSSESSOR_READ, SESSION_KEYRING, USER_KEYRING,
};

fn base() -> Result<String, String> {
    Ok("/run/tempkeys".to_string())
}

fn failed() -> OsError {
    OsError { errno: Errno::NoSys, text: "no".to_string() }
}

fn error<T>(r: Result<T, String>) -> String {
    match r {
        Ok(_) => panic!("no error"),
        Err(e) => e,
    }
}

#[test]
fn flags_select_scopes() {
    assert!(target(true, false) == Target::Session);
    assert!(target(true, true) == Target::Session);
    assert!(target(false, true) == Target::User);
    assert!(target(false, false) == Target::Auto);
}

#[test]
fn scopes_have_their_keyring_and_directory() {
    let user = Scope::user(&base()).unwrap();
    assert_eq!((user.label, user.root, user.perm), ("user", USER_KEYRING, PERM_OWNER_ALL));
    assert_eq!((user.base.as_str(), user.dir.as_str()), ("/run/tempkeys", "user"));
    let session = Scope::session(&SessionReply::Serial(77), &base()).unwrap();
    assert_eq!(
        (session.label, session.root, session.perm),
        ("session", SESSION_KEYRING, PERM_POSSESSOR_READ)
    );
    assert_eq!(session.dir, "session-77");
    assert_eq!(
        Scope::session(&SessionReply::Serial(-5), &base()).unwrap().dir,
        "session--5"
    );
}

#[test]
fn writes_go_to_one_scope() {
    let inside = SessionReply::Serial(5);
    let outside = SessionReply::Unmarked;
    assert_eq!(Scope::for_write(Target::Auto, &inside, &base()).unwrap().dir, "session-5");
    assert_eq!(Scope::for_write(Target::Auto, &outside, &base()).unwrap().dir, "user");
    assert_eq!(Scope::for_write(Target::User, &inside, &base()).unwrap().dir, "user");
    assert_eq!(Scope::for_write(Target::Session, &inside, &base()).unwrap().dir, "session-5");
    assert_eq!(
        error(Scope::for_write(Target::Session, &outside, &base())),
        "not inside a tempkeys session (start one with `tempkeys session`)"
    );
    // The user scope does not need a keyring that can be searched.
    let broken = SessionReply::SearchFailed(failed());
    assert!(Scope::for_write(Target::User, &broken, &base()).is_ok());
    assert!(error(Scope::for_write(Target::Auto, &broken, &base()))
        .starts_with("searching session keyring: no (kernel keyrings unavailable"));
    assert!(error(Scope::for_write(Target::Auto, &SessionReply::SerialFailed(failed()), &base()))
        .starts_with("resolving session keyring: no"));
}

#[test]
fn reads_look_in_the_session_first() {
    let dirs = |target, reply: &SessionReply| -> Vec<String> {
        Scope::for_read(target, reply, &base())
            .unwrap()
            .into_iter()
            .map(|s| s.dir)
            .collect()
    };
    let inside = SessionReply::Serial(5);
    assert_eq!(dirs(Target::Auto, &inside), vec!["session-5", "user"]);
    assert_eq!(dirs(Target::Auto, &SessionReply::Unmarked), vec!["user"]);
    assert_eq!(dirs(Target::User, &inside), vec!["user"]);
    assert_eq!(dirs(Target::Session, &inside), vec!["session-5"]);
    let nowhere = Err("nowhere".to_string());
    assert_eq!(error(Scope::for_read(Target::Auto, &inside, &nowhere)), "nowhere");
    assert_eq!(error(Scope::for_read(Target::User, &inside, &nowhere)), "nowhere");
}

#[test]
fn fallback_is_per_keyset() {
    let scopes = Scope::for_read(Target::Auto, &SessionReply::Serial(5), &base()).unwrap();
    let dir = |present: Vec<bool>| pick(&scopes, "default", &present).unwrap().dir.clone();
    assert_eq!(dir(vec![true, true]), "session-5");
    assert_eq!(dir(vec![false, true]), "user");
    assert_eq!(dir(vec![true, false]), "session-5");
    assert_eq!(dir(vec![false, false]), "session-5");
    assert_eq!(error(pick(&scopes, ".x", &vec![true, true])), "invalid keyset name \".x\"");
    assert_eq!(error(pick(&Vec::new(), "x", &Vec::new())), "no scope available");
}

#[test]
fn runtime_directories_must_be_private() {
    let facts = |absolute, directory, owner, mode| {
        Some(RuntimeFacts { absolute, directory, owner, mode })
    };
    assert!(runtime_dir(facts(true, true, 1000, 0o40700), 1000));
    assert!(runtime_dir(facts(true, true, 1000, 0o40500), 1000));
    assert!(!runtime_dir(facts(true, true, 1000, 0o40701), 1000));
    assert!(!runtime_dir(facts(true, true, 1000, 0o40740), 1000));
    assert!(!runtime_dir(facts(true, true, 0, 0o40700), 1000));
    assert!(!runtime_dir(facts(true, false, 1000, 0o100700), 1000));
    assert!(!runtime_dir(facts(false, true, 1000, 0o40700), 1000));
    assert!(!runtime_dir(None, 1000));
}

#[test]
fn base_directories_in_order() {
    assert!(base_dir(true, true, true) == Ok(Root::Runtime));
    assert!(base_dir(false, true, true) == Ok(Root::Cache));
    assert!(base_dir(false, false, true) == Ok(Root::HomeCache));
    assert_eq!(
        error(base_dir(false, false, false)),
        "cannot locate a directory: XDG_RUNTIME_DIR, XDG_CACHE_HOME and HOME are all unusable"
    );
    assert_eq!(path("user", "default"), "user/default");
}
