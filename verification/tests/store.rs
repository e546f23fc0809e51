use tempkeys::errors::{Errno, OsError};
use tempkeys::keyring::{drop_keys, find_key, key_search, locked, need_key, KeyReply};
use tempkeys::read::{FileReply, Wanted};
use tempkeys::scope::{Scope, SessionReply};
use tempkeys::script::{Action, Op, Outcome, Runner, Stage};
use tempkeys::seal::{seal_files, Draws};
use tempkeys::secret::Secret;
use tempkeys::store::{
    carried, clear, clear_all, existing_header, kept_names, key_file, merge_keyset, set_dir,
    set_key, store_keyset, AddedKey, NewKey, Slot,
};
use tempkeys::sys::Call;
use tempkeys::vault::{decrypt, parse_header, Header};

fn user() -> Scope {
    Scope::user(&Ok("/b".to_string())).unwrap()
}

fn session() -> Scope {
    Scope::session(&SessionReply::Serial(9), &Ok("/b".to_string())).unwrap()
}

fn failed(text: &str) -> OsError {
    OsError { errno: Errno::Other, text: text.to_string() }
}

fn error<T>(r: Result<T, String>) -> String {
    match r {
        Ok(_) => panic!("no error"),
        Err(e) => e,
    }
}

fn entries(list: &[(&str, &str)]) -> Vec<(String, Secret)> {
    list.iter()
        .map(|(k, v)| (k.to_string(), Secret(v.as_bytes().to_vec())))
        .collect()
}

fn draws(n: usize) -> Draws {
    Draws { nonces: vec![[4; 24]; n], failed: None }
}

fn fresh() -> NewKey {
    match NewKey::new("s", Ok(Secret(vec![6; 32])), Ok([7; 16])) {
        Ok(new) => new,
        Err(e) => panic!("{e}"),
    }
}

fn added() -> AddedKey {
    match fresh().added(Ok(42)) {
        Ok(added) => added,
        Err(e) => panic!("{e}"),
    }
}

fn shown(op: &Op) -> String {
    match op {
        Op::SetTimeout { id, secs } => format!("timeout {id} {secs}"),
        Op::SetPerm { id, perm } => format!("perm {id} {perm:08x}"),
        Op::Link { id, ring } => format!("link {id} {ring}"),
        Op::Unlink { id, ring } => format!("unlink {id} {ring}"),
        Op::Revoke { id } => format!("revoke {id}"),
        Op::DropKeys { ring, prefix, keep } => {
            format!("drop {ring} {prefix} {}", keep.as_deref().unwrap_or("-"))
        }
        Op::MakeDir { path, mode } => {
            assert_eq!(*mode, 0o700);
            format!("mkdir {path}")
        }
        Op::RemoveTree { path } => format!("rmtree {path}"),
        Op::RemoveDir { path } => format!("rmdir {path}"),
        Op::RemoveFile { path } => format!("rm {path}"),
        Op::WriteNew { path, mode, bytes } => {
            assert_eq!(*mode, 0o600);
            format!("write {path} {}", bytes.len())
        }
        Op::Rename { from, to } => format!("mv {from} {to}"),
    }
}

/// Runs a script in which the operation that begins with `fails` fails.
fn run(stages: Vec<Stage>, there: bool, fails: &str) -> (Vec<String>, Result<(), String>) {
    let mut done = Vec::new();
    let mut runner = Runner::new(stages);
    loop {
        let outcome = match runner.action() {
            Action::Finished => break,
            Action::Probe(path) => {
                done.push(format!("probe {path}"));
                if there { Outcome::Done } else { Outcome::Missing }
            }
            Action::Perform(op) => {
                let line = shown(op);
                let bad = !fails.is_empty() && line.starts_with(fails);
                done.push(line);
                if bad { Outcome::Failed(failed("why")) } else { Outcome::Done }
            }
        };
        runner = runner.tell(&outcome);
    }
    (done, runner.verdict())
}

const GEN: &str = "07070707070707070707070707070707";

fn stored(scope: &Scope, ttl: Option<u32>) -> Vec<Stage> {
    let list = entries(&[("A", "1"), ("B", "two")]);
    store_keyset(scope, &added(), ttl, 1000, &list, &draws(2), 5)
}

#[test]
fn storing_in_the_user_scope() {
    let (done, result) = run(stored(&user(), Some(60)), true, "");
    assert_eq!(result, Ok(()));
    assert_eq!(
        done,
        vec![
            "timeout 42 60".to_string(),
            "perm 42 003f0000".to_string(),
            "link 42 -4".to_string(),
            "unlink 42 -3".to_string(),
            "mkdir user".to_string(),
            "rmtree user/.s.new-5".to_string(),
            "mkdir user/.s.new-5".to_string(),
            "write user/.s.new-5/A.enc 69".to_string(),
            "write user/.s.new-5/B.enc 71".to_string(),
            "rmtree user/.s.old-5".to_string(),
            "probe user/s".to_string(),
            "mv user/s user/.s.old-5".to_string(),
            "mv user/.s.new-5 user/s".to_string(),
            "rmtree user/.s.old-5".to_string(),
            format!("drop -4 tempkeys:key:s: tempkeys:key:s:{GEN}"),
        ]
    );
}

#[test]
fn storing_in_the_session_scope() {
    let (done, result) = run(stored(&session(), None), false, "");
    assert_eq!(result, Ok(()));
    assert_eq!(done[0], "perm 42 0b000000");
    assert_eq!(done[1], "mkdir session-9");
    assert!(!done.iter().any(|d| d.starts_with("link") || d.starts_with("mv session-9/s ")));
}

#[test]
fn a_key_that_cannot_be_secured_is_revoked() {
    for (fails, message) in [
        ("timeout", "setting key timeout: why"),
        ("perm", "restricting key: why"),
        ("link", "linking key: why"),
        ("unlink 42 -3", "unstaging key: why"),
    ] {
        let (done, result) = run(stored(&user(), Some(60)), true, fails);
        assert_eq!(result, Err(message.to_string()));
        assert_eq!(done[done.len() - 3..], ["revoke 42", "unlink 42 -3", "unlink 42 -4"]);
        assert!(!done.iter().any(|d| d.starts_with("mkdir")));
    }
}

#[test]
fn a_keyset_that_cannot_be_installed_leaves_no_key() {
    let drop = format!("drop -4 tempkeys:key:s:{GEN} -");
    for (fails, message) in [
        ("mkdir user/.s.new-5", "creating /b/user/.s.new-5: why"),
        ("write user/.s.new-5/B", "writing /b/user/.s.new-5/B.enc: why"),
        ("mv user/s ", "replacing keyset: why"),
        ("mv user/.s.new-5", "installing keyset: why"),
    ] {
        let (done, result) = run(stored(&user(), None), true, fails);
        assert_eq!(result, Err(message.to_string()));
        assert_eq!(done[done.len() - 2], "rmtree user/.s.new-5");
        assert_eq!(done[done.len() - 1], drop);
    }
    let (done, result) = run(stored(&user(), None), true, "mkdir user");
    assert_eq!(result, Err("creating /b/user: why".to_string()));
    assert_eq!(done[done.len() - 2..], ["mkdir user".to_string(), drop.clone()]);
    // What need not succeed stops nothing.
    let (_, result) = run(stored(&user(), None), true, "rmtree");
    assert_eq!(result, Ok(()));
    let (_, result) = run(stored(&user(), None), true, "drop");
    assert_eq!(result, Ok(()));
}

#[test]
fn secrets_that_cannot_be_sealed_leave_no_key() {
    let list = entries(&[("A", "1"), ("B", "2")]);
    let few = Draws { nonces: vec![[4; 24]], failed: Some(failed("dry")) };
    let stages = store_keyset(&user(), &added(), None, 0, &list, &few, 5);
    let (done, result) = run(stages, true, "");
    assert_eq!(result, Err("random nonce: dry".to_string()));
    assert_eq!(done[0], "perm 42 003f0000");
    assert_eq!(done[done.len() - 1], format!("drop -4 tempkeys:key:s:{GEN} -"));
    assert!(!done.iter().any(|d| d.starts_with("mkdir")));
}

#[test]
fn sealed_files_hold_their_entries() {
    let header = Header { generation: [7; 16], expiry: 1234 };
    let list = entries(&[("A", "1"), ("B", "\u{0}bin")]);
    let files = seal_files(&[6; 32], &header, "s", &list, &draws(2)).unwrap();
    for (i, (name, file)) in files.iter().enumerate() {
        assert_eq!(*name, list[i].0);
        assert_eq!(decrypt(&[6; 32], file, "s", name).unwrap().0, list[i].1 .0);
        let h = parse_header(file).unwrap();
        assert_eq!((h.generation, h.expiry), ([7; 16], 1234));
    }
    assert_eq!(error(seal_files(&[6; 31], &header, "s", &list, &draws(2))), "bad key length");
}

#[test]
fn new_keys_are_added_to_the_session_keyring() {
    match fresh().add_key() {
        Ok(Call::AddKey { kind, desc, payload, ring }) => {
            assert_eq!(kind, b"user\0");
            assert_eq!(desc, format!("tempkeys:key:s:{GEN}\0").into_bytes());
            assert_eq!(payload.0, vec![6; 32]);
            assert_eq!(ring, -3);
        }
        _ => panic!("no call to add a key"),
    }
    assert!(fresh().added(Ok(42)).is_ok());
    assert_eq!(error(fresh().added(Err(failed("full")))), "storing encryption key: full");
    assert_eq!(
        error(NewKey::new("a b", Err(failed("x")), Ok([7; 16]))),
        "invalid keyset name \"a b\""
    );
    assert_eq!(
        error(NewKey::new("s", Err(failed("x")), Err(failed("y")))),
        "random key: x"
    );
    assert_eq!(
        error(NewKey::new("s", Ok(Secret(vec![1])), Err(failed("y")))),
        "random generation: y"
    );
}

#[test]
fn merging_keeps_the_other_keys() {
    let list = entries(&[("B", "new"), ("D", "4")]);
    let names: Vec<String> = ["A", "B", "C"].iter().map(|n| n.to_string()).collect();
    let kept = kept_names(&names, &list);
    assert_eq!(kept, vec!["A", "C"]);
    let mut files = Vec::new();
    for name in &kept {
        files.push(carried(name, Ok(name.clone().into_bytes())).unwrap());
    }
    assert_eq!(error(carried("A", Err(failed("why")))), "reading A: why");
    let header = Header { generation: [7; 16], expiry: 5 };
    let key = Secret(vec![6; 32]);
    let (stages, total) =
        merge_keyset(&user(), "s", &header, &key, files, &list, &draws(2), 5).unwrap();
    assert_eq!(total, 4);
    for stage in &stages {
        for step in &stage.steps {
            if let Op::WriteNew { path, bytes, .. } = &step.op {
                if path.ends_with("/A.enc") {
                    assert_eq!(bytes, b"A");
                }
                if path.ends_with("/B.enc") {
                    assert_eq!(decrypt(&key.0, bytes, "s", "B").unwrap().0, b"new");
                }
            }
        }
    }
    let (done, result) = run(stages, true, "mv user/.s.new-5");
    assert_eq!(result, Err("installing keyset: why".to_string()));
    assert_eq!(done[done.len() - 1], "rmtree user/.s.new-5");
    assert!(!done.iter().any(|d| d.starts_with("drop")));
    let short = Secret(vec![6; 3]);
    assert_eq!(
        error(merge_keyset(&user(), "s", &header, &short, Vec::new(), &list, &draws(2), 5)),
        "bad key length"
    );
}

#[test]
fn one_key_is_replaced_beside_the_others() {
    let header = Header { generation: [7; 16], expiry: 5 };
    let key = Secret(vec![6; 32]);
    let value = Secret(b"v".to_vec());
    let slot = match Slot::new("s", "K") {
        Ok(slot) => slot,
        Err(e) => panic!("{e}"),
    };
    let stages = || set_key(&user(), &slot, &header, &key, &value, Ok([4; 24]), 5).unwrap();
    let (done, result) = run(stages(), true, "");
    assert_eq!(result, Ok(()));
    assert_eq!(
        done,
        vec!["rm user/s/.K.tmp-5", "write user/s/.K.tmp-5 69", "mv user/s/.K.tmp-5 user/s/K.enc"]
    );
    for fails in ["write", "mv"] {
        let (done, result) = run(stages(), true, fails);
        assert_eq!(result, Err("writing K: why".to_string()));
        assert_eq!(done[done.len() - 1], "rm user/s/.K.tmp-5");
    }
    assert_eq!(
        error(set_key(&user(), &slot, &header, &key, &value, Err(failed("dry")), 5)),
        "random nonce: dry"
    );
}

#[test]
fn what_is_stored_is_where_it_is_read() {
    let scope = user();
    assert_eq!(set_dir(&scope, "s"), "user/s");
    assert_eq!(key_file(&scope, "s", "A"), "user/s/A.enc");
    let mut files = std::collections::BTreeMap::new();
    let mut runner = Runner::new(stored(&scope, None));
    loop {
        let outcome = match runner.action() {
            Action::Finished => break,
            Action::Probe(_) => Outcome::Missing,
            Action::Perform(op) => {
                match op {
                    Op::WriteNew { path, bytes, .. } => {
                        files.insert(path.clone(), bytes.clone());
                    }
                    Op::Rename { from, to } => {
                        files = files
                            .into_iter()
                            .map(|(path, bytes): (String, Vec<u8>)| {
                                match path.strip_prefix(from.as_str()) {
                                    Some(rest) => (format!("{to}{rest}"), bytes),
                                    None => (path, bytes),
                                }
                            })
                            .collect();
                    }
                    _ => {}
                }
                Outcome::Done
            }
        };
        runner = runner.tell(&outcome);
    }
    assert_eq!(files.len(), 2);
    for (name, value) in [("A", "1"), ("B", "two")] {
        let file = &files[&key_file(&scope, "s", name)];
        assert_eq!(decrypt(&[6; 32], file, "s", name).unwrap().0, value.as_bytes());
    }
}

#[test]
fn keys_are_set_under_valid_names() {
    assert_eq!(error(Slot::new("/", "K")), "invalid keyset name \"/\"");
    assert_eq!(
        error(Slot::new("s", "K-1")),
        "invalid key name \"K-1\" (use letters, digits, underscore)"
    );
    let entry = match Slot::new("s", "K") {
        Ok(slot) => slot.entry(Secret(vec![9])),
        Err(e) => panic!("{e}"),
    };
    assert_eq!(entry.len(), 1);
    assert_eq!(entry[0].0, "K");
    assert_eq!(entry[0].1 .0, vec![9]);
}

#[test]
fn clearing_removes_files_and_then_keys() {
    let (done, result) = run(clear(&user(), "s", true).unwrap(), true, "");
    assert_eq!(result, Ok(()));
    assert_eq!(done, vec!["rmtree user/s", "drop -4 tempkeys:key:s: -"]);
    let (done, result) = run(clear(&user(), "s", true).unwrap(), true, "rmtree");
    assert_eq!(result, Err("removing keyset: why".to_string()));
    assert_eq!(done, vec!["rmtree user/s"]);
    assert_eq!(error(clear(&user(), "s", false)), "no keyset \"s\"");
    assert_eq!(error(clear(&user(), "", true)), "invalid keyset name \"\"");
    let sets = vec!["a".to_string(), "b".to_string()];
    let (done, result) = run(clear_all(&session(), &sets), true, "rmtree");
    assert_eq!(result, Ok(()));
    assert_eq!(done, vec!["rmtree session-9/a", "rmtree session-9/b", "drop -3 tempkeys:key: -"]);
}

#[test]
fn existing_keysets_are_known_by_their_first_file() {
    assert!(existing_header(None).unwrap().is_none());
    assert_eq!(error(existing_header(Some(Err(failed("why"))))), "reading keyset: why");
    assert_eq!(error(existing_header(Some(Ok(Vec::new())))), "not a tempkeys secret file");
}

#[test]
fn keys_are_dropped_by_their_description() {
    let user_key = |d: &str| Some(("user".to_string(), d.to_string()));
    let keys = vec![
        (1, user_key("tempkeys:key:s:aa")),
        (2, user_key("tempkeys:key:s:bb")),
        (3, user_key("tempkeys:key:st:aa")),
        (4, None),
        (5, Some(("keyring".to_string(), "tempkeys:key:s:cc".to_string()))),
        (6, user_key("tempkeys:session")),
    ];
    let keep = Some("tempkeys:key:s:bb".to_string());
    let ops = drop_keys(&keys, -4, "tempkeys:key:s:", &keep);
    assert_eq!(ops.iter().map(shown).collect::<Vec<_>>(), vec!["revoke 1", "unlink 1 -4"]);
    let ops = drop_keys(&keys, -4, "tempkeys:key:", &None);
    let ids: Vec<String> = ops.iter().step_by(2).map(shown).collect();
    assert_eq!(ids, vec!["revoke 1", "revoke 2", "revoke 3"]);
}

#[test]
fn encryption_keys_are_found_or_locked() {
    match key_search(&user(), "s", &[7; 16]) {
        Ok(Call::Search { command, ring, kind, desc }) => {
            assert_eq!((command, ring), (10, -4));
            assert_eq!(kind, b"user\0");
            assert_eq!(desc, format!("tempkeys:key:s:{GEN}\0").into_bytes());
        }
        _ => panic!("no call to search"),
    }
    assert!(find_key(KeyReply::Missing).unwrap().is_none());
    assert_eq!(find_key(KeyReply::Key(Secret(vec![1]))).unwrap().unwrap().0, vec![1]);
    assert_eq!(
        error(find_key(KeyReply::SearchFailed(failed("why")))),
        "searching keyring: why"
    );
    assert_eq!(
        error(need_key("s", KeyReply::ReadFailed(failed("why")))),
        "reading encryption key: why"
    );
    assert_eq!(error(need_key("s", KeyReply::Missing)), locked("s"));
    assert_eq!(
        locked("s"),
        "keyset \"s\" is locked: its encryption key expired or was cleared"
    );
}

type Tree = std::collections::BTreeMap<String, Vec<u8>>;

/// Runs a script on files, and lets the operation that begins with `fails` fail: a write
/// that fails leaves an empty file.
fn run_on(files: &mut Tree, stages: Vec<Stage>, fails: &str) -> Result<(), String> {
    let mut runner = Runner::new(stages);
    loop {
        let outcome = match runner.action() {
            Action::Finished => break,
            Action::Probe(path) => {
                let below = format!("{path}/");
                match files.keys().any(|p| p.starts_with(&below)) {
                    true => Outcome::Done,
                    false => Outcome::Missing,
                }
            }
            Action::Perform(op) => {
                let bad = !fails.is_empty() && shown(op).starts_with(fails);
                match op {
                    Op::WriteNew { path, bytes, .. } => {
                        let written = if bad { Vec::new() } else { bytes.clone() };
                        files.insert(path.clone(), written);
                    }
                    Op::RemoveTree { path } => {
                        let below = format!("{path}/");
                        files.retain(|p, _| !p.starts_with(&below));
                    }
                    Op::RemoveFile { path } => {
                        files.remove(path);
                    }
                    Op::Rename { from, to } if !bad => {
                        files.remove(to);
                        let old = std::mem::take(files);
                        for (path, bytes) in old {
                            let path = match path.strip_prefix(from.as_str()) {
                                Some(rest) => format!("{to}{rest}"),
                                None => path,
                            };
                            files.insert(path, bytes);
                        }
                    }
                    _ => {}
                }
                if bad { Outcome::Failed(failed("why")) } else { Outcome::Done }
            }
        };
        runner = runner.tell(&outcome);
    }
    runner.verdict()
}

fn old_files(dir: &str) -> Tree {
    [("A", "a"), ("Z", "z")]
        .iter()
        .map(|(name, bytes)| (format!("{dir}/{name}.enc"), bytes.as_bytes().to_vec()))
        .collect()
}

#[test]
fn a_store_that_fails_leaves_the_old_files() {
    for fails in ["perm", "link", "mkdir user/.s", "write user/.s.new-5/B.enc", "mv user/s "] {
        let mut files = old_files("user/s");
        assert!(run_on(&mut files, stored(&user(), None), fails).is_err(), "{fails}");
        assert_eq!(files, old_files("user/s"), "{fails}");
    }
    // The old keyset is away, and the new one cannot be moved in.
    let mut files = old_files("user/s");
    assert!(run_on(&mut files, stored(&user(), None), "mv user/.s.new-5").is_err());
    assert_eq!(files, old_files("user/.s.old-5"));
    let mut files = old_files("user/s");
    assert_eq!(run_on(&mut files, stored(&user(), None), ""), Ok(()));
    assert_eq!(files.keys().collect::<Vec<_>>(), ["user/s/A.enc", "user/s/B.enc"]);
}

#[test]
fn a_key_that_cannot_be_set_leaves_all_files() {
    let header = Header { generation: [7; 16], expiry: 1000 };
    let key = Secret(vec![6; 32]);
    let value = Secret(b"v".to_vec());
    for fails in ["write", "mv"] {
        let slot = Slot::new("s", "A").unwrap_or_else(|e| panic!("{e}"));
        let stages = set_key(&user(), &slot, &header, &key, &value, Ok([4; 24]), 5).unwrap();
        let mut files = old_files("user/s");
        assert!(run_on(&mut files, stages, fails).is_err());
        assert_eq!(files, old_files("user/s"));
    }
}

/// Reads a secret with the key of the keyset, before it expires at 1000.
fn read_back(files: &Tree, name: &str) -> Vec<u8> {
    let wanted = Wanted::new("s", name).unwrap_or_else(|e| panic!("{e}"));
    let file = files[&wanted.file(&user())].clone();
    let sealed = wanted.found(FileReply::Bytes(file), 999).unwrap_or_else(|e| panic!("{e}"));
    match (sealed.search(&user()), fresh().add_key()) {
        (
            Ok(Call::Search { ring, kind, desc, .. }),
            Ok(Call::AddKey { kind: added_kind, desc: added_desc, .. }),
        ) => {
            assert_eq!((kind, desc), (added_kind, added_desc));
            assert_eq!(ring, user().root);
        }
        _ => panic!("no calls"),
    }
    match sealed.read_secret(KeyReply::Key(Secret(vec![6; 32]))) {
        Ok(secret) => secret.0.clone(),
        Err(e) => panic!("{e}"),
    }
}

#[test]
fn what_is_stored_merged_and_set_is_read_back() {
    let key = Secret(vec![6; 32]);
    let mut files = Tree::new();
    let list = entries(&[("A", "1"), ("B", "two")]);
    let stages = store_keyset(&user(), &added(), Some(400), 600, &list, &draws(2), 5);
    assert_eq!(run_on(&mut files, stages, ""), Ok(()));
    assert_eq!(read_back(&files, "A"), b"1");
    assert_eq!(read_back(&files, "B"), b"two");

    let first = files[&key_file(&user(), "s", "A")].clone();
    let header = existing_header(Some(Ok(first.clone()))).unwrap().unwrap();
    assert_eq!((header.generation, header.expiry), ([7; 16], 1000));
    let list = entries(&[("B", "new"), ("C", "3")]);
    let kept = vec![carried("A", Ok(first)).unwrap()];
    let (stages, total) =
        merge_keyset(&user(), "s", &header, &key, kept, &list, &draws(2), 5).unwrap();
    assert_eq!(total, 3);
    assert_eq!(run_on(&mut files, stages, ""), Ok(()));
    assert_eq!(read_back(&files, "A"), b"1");
    assert_eq!(read_back(&files, "B"), b"new");
    assert_eq!(read_back(&files, "C"), b"3");

    let slot = Slot::new("s", "A").unwrap_or_else(|e| panic!("{e}"));
    let value = Secret(vec![0, 255]);
    let stages = set_key(&user(), &slot, &header, &key, &value, Ok([8; 24]), 5).unwrap();
    assert_eq!(run_on(&mut files, stages, ""), Ok(()));
    assert_eq!(read_back(&files, "A"), [0, 255]);
    assert_eq!(read_back(&files, "B"), b"new");
    assert_eq!(files.len(), 3);
}
