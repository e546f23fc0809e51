use tempkeys::errors::{Errno, OsError};
use tempkeys::keyring::KeyReply;
use tempkeys::list::{keyset_line, no_keyset, state};
use tempkeys::prune::{expired, locked, prune_set, session_serial, Sighting};
use tempkeys::read::{printed, FileReply, Wanted};
use tempkeys::scope::Scope;
use tempkeys::script::{Action, Op, Outcome, Runner};
use tempkeys::secret::Secret;
use tempkeys::sys::Call;
use tempkeys::ttl::NEVER;
use tempkeys::vault::encrypt;

const KEY: [u8; 32] = [5; 32];

fn file(expiry: u64) -> Vec<u8> {
    encrypt(&KEY, &[2; 16], expiry, "s", "K", b"value", &[3; 24]).unwrap()
}

fn failed() -> OsError {
    OsError { errno: Errno::Other, text: "why".to_string() }
}

fn error<T>(r: Result<T, String>) -> String {
    match r {
        Ok(_) => panic!("no error"),
        Err(e) => e,
    }
}

fn read(reply: FileReply, now: u64, key: KeyReply) -> Result<Vec<u8>, String> {
    let sealed = Wanted::new("s", "K")?.found(reply, now)?;
    assert!(sealed.openable());
    Ok(sealed.read_secret(key)?.0.clone())
}

fn key() -> KeyReply {
    KeyReply::Key(Secret(KEY.to_vec()))
}

#[test]
fn what_was_stored_is_read() {
    assert_eq!(read(FileReply::Bytes(file(1000)), 999, key()), Ok(b"value".to_vec()));
    assert_eq!(read(FileReply::Bytes(file(NEVER)), 1 << 40, key()), Ok(b"value".to_vec()));
    let scope = Scope::user(&Ok("/b".to_string())).unwrap();
    let wanted = Wanted::new("s", "K").unwrap();
    assert_eq!(wanted.dir(&scope), "user/s");
    assert_eq!(wanted.file(&scope), "user/s/K.enc");
    let sealed = wanted.found(FileReply::Bytes(file(1000)), 0).unwrap();
    match sealed.search(&scope) {
        Ok(Call::Search { command, ring, kind, desc }) => {
            assert_eq!((command, ring), (10, -4));
            assert_eq!(kind, b"user\0");
            assert_eq!(desc, b"tempkeys:key:s:02020202020202020202020202020202\0");
        }
        _ => panic!("no call to search"),
    }
}

#[test]
fn what_cannot_be_read() {
    let err = |s: &str| Err::<Vec<u8>, String>(s.to_string());
    assert_eq!(
        read(FileReply::NoKeyset, 0, key()),
        err("no keyset \"s\" (never loaded, expired, or cleared)")
    );
    assert_eq!(read(FileReply::NotFound, 0, key()), err("no key \"K\" in keyset \"s\""));
    assert_eq!(read(FileReply::Failed(failed()), 0, key()), err("reading secret file: why"));
    assert_eq!(
        read(FileReply::Bytes(vec![0; 100]), 0, key()),
        err("not a tempkeys secret file")
    );
    assert_eq!(
        read(FileReply::Bytes(file(1000)), 1000, key()),
        err("keyset \"s\" has expired")
    );
    assert_eq!(
        read(FileReply::Bytes(file(1000)), 0, KeyReply::Missing),
        err("keyset \"s\" is locked: its encryption key expired or was cleared")
    );
    assert_eq!(
        read(FileReply::Bytes(file(1000)), 0, KeyReply::Key(Secret(vec![1; 32]))),
        err("decryption failed: wrong key, or the file was modified or moved")
    );
    assert_eq!(error(Wanted::new("s", "a b")), "invalid key name \"a b\"");
    assert_eq!(error(Wanted::new(".s", "K")), "invalid keyset name \".s\"");
}

#[test]
fn secrets_are_printed_as_they_are() {
    assert_eq!(printed(Secret(b"a\n".to_vec()), false).0, b"a\n");
    assert_eq!(printed(Secret(b"a".to_vec()), true).0, b"a\n");
}

#[test]
fn states_of_keysets() {
    assert_eq!(state(&None, &key(), 0), "");
    assert_eq!(state(&Some(vec![1, 2]), &key(), 0), "");
    assert_eq!(state(&Some(file(NEVER)), &key(), 7), "no expiry");
    assert_eq!(state(&Some(file(7300)), &key(), 100), "expires in 2h");
    assert_eq!(state(&Some(file(5)), &key(), 100), "expires in 0s");
    assert_eq!(state(&Some(file(NEVER)), &KeyReply::Missing, 0), "locked");
    assert_eq!(state(&Some(file(9)), &KeyReply::SearchFailed(failed()), 0), "locked");
    assert_eq!(state(&Some(file(9)), &KeyReply::ReadFailed(failed()), 0), "locked");
}

#[test]
fn lines_of_a_listing() {
    assert_eq!(
        keyset_line(1, "user", "default", 3, &Some(file(NEVER)), &key(), 5),
        "default\t3 keys\tno expiry"
    );
    assert_eq!(
        keyset_line(2, "session", "default", 0, &None, &KeyReply::Missing, 5),
        "session\tdefault\t0 keys\t"
    );
    assert_eq!(no_keyset("x"), "no keyset \"x\"");
}

#[test]
fn only_locked_files_of_a_keyset_are_deleted() {
    let see = |name: &str, file, key| Sighting { name: name.to_string(), file, key };
    let seen = vec![
        see("A", Some(file(NEVER)), KeyReply::Missing),
        see("B", Some(file(NEVER)), key()),
        see("C", None, KeyReply::Missing),
        see("D", Some(vec![1]), KeyReply::Missing),
        see("E", Some(file(1)), KeyReply::SearchFailed(failed())),
    ];
    let scope = Scope::user(&Ok("/b".to_string())).unwrap();
    let mut runner = Runner::new(prune_set(&scope, "s", &seen));
    let mut done = Vec::new();
    loop {
        match runner.action() {
            Action::Finished => break,
            Action::Perform(Op::RemoveFile { path }) => done.push(format!("rm {path}")),
            Action::Perform(Op::RemoveDir { path }) => done.push(format!("rmdir {path}")),
            _ => panic!("something else is done"),
        }
        runner = runner.tell(&Outcome::Failed(failed()));
    }
    assert_eq!(done, vec!["rm user/s/A.enc", "rmdir user/s"]);
    assert!(runner.verdict().is_ok());
}

#[test]
fn only_dead_files_are_pruned() {
    assert!(expired(&file(10), 10));
    assert!(!expired(&file(10), 9));
    assert!(!expired(b"notes", 1000));
    assert!(locked(&file(10), &KeyReply::Missing));
    assert!(!locked(&file(10), &KeyReply::SearchFailed(failed())));
    assert!(!locked(&file(10), &KeyReply::ReadFailed(failed())));
    assert!(!locked(&file(10), &key()));
    assert!(!locked(b"notes", &KeyReply::Missing));
}

#[test]
fn session_directories_are_known() {
    assert_eq!(session_serial("session-12345"), Some(12345));
    assert_eq!(session_serial("session--7"), Some(-7));
    assert_eq!(session_serial("session-+7"), Some(7));
    assert_eq!(session_serial("session-2147483647"), Some(i32::MAX));
    assert_eq!(session_serial("session--2147483648"), Some(i32::MIN));
    for other in ["session-2147483648", "session-", "session--", "session-1a", "user", "session"] {
        assert_eq!(session_serial(other), None, "{other}");
    }
}
