use tempkeys::errors::{Errno, OsError};
use tempkeys::input::{read_value, stdin_keyset, Input, ValueInput};
use tempkeys::load::{
    all_cleared_message, cleared_message, created_message, load_entries, load_target,
    loaded_message, merged_message, set_message, set_target,
};
use tempkeys::secret::Secret;
use tempkeys::vault::{encrypt, parse_header};

fn failed() -> OsError {
    OsError { errno: Errno::Perm, text: "why".to_string() }
}

fn error<T>(r: Result<T, String>) -> String {
    match r {
        Ok(_) => panic!("no error"),
        Err(e) => e,
    }
}

fn bytes(b: &[u8]) -> ValueInput {
    ValueInput::Bytes(Secret(b.to_vec()))
}

fn file() -> Vec<u8> {
    encrypt(&[1; 32], &[2; 16], 99, "s", "K", b"v", &[3; 24]).unwrap()
}

#[test]
fn keysets_come_from_piped_text() {
    let got = stdin_keyset(&Input::Bytes(Secret(b"A=\xc3\xa9\n".to_vec()))).unwrap();
    assert_eq!(got[0].0, "A");
    assert_eq!(got[0].1 .0, "é".as_bytes());
    assert_eq!(
        error(stdin_keyset(&Input::Terminal)),
        "stdin is a terminal: pipe the keyset in (e.g. `pass show env | tempkeys load`)"
    );
    assert_eq!(error(stdin_keyset(&Input::Failed(failed()))), "reading stdin: why");
    assert_eq!(
        error(stdin_keyset(&Input::Bytes(Secret(b"A=\xff".to_vec())))),
        "input is not valid UTF-8"
    );
}

#[test]
fn one_newline_is_dropped_from_a_value() {
    let value = |b: &[u8], raw| read_value(bytes(b), raw).unwrap().0.clone();
    assert_eq!(value(b"token\n", false), b"token");
    assert_eq!(value(b"token\r\n", false), b"token");
    assert_eq!(value(b"token\n\n", false), b"token\n");
    assert_eq!(value(b"token\r", false), b"token\r");
    assert_eq!(value(b"token", false), b"token");
    assert_eq!(value(b"token\n", true), b"token\n");
    assert_eq!(value(b"\n", true), b"\n");
    for (b, raw) in [(&b""[..], true), (b"", false), (b"\n", false), (b"\r\n", false)] {
        assert_eq!(error(read_value(bytes(b), raw)), "empty values are not supported");
    }
    assert_eq!(
        error(read_value(ValueInput::PromptFailed(failed()), false)),
        "reading value: why"
    );
    assert_eq!(error(read_value(ValueInput::Failed(failed()), true)), "reading stdin: why");
}

#[test]
fn bad_input_gives_nothing_to_load() {
    let input = Input::Bytes(Secret(b"A=1\nA=2".to_vec()));
    assert_eq!(error(load_entries("default", &input)), "duplicate key A");
    assert_eq!(error(load_entries("..", &Input::Terminal)), "invalid keyset name \"..\"");
    let input = Input::Bytes(Secret(b"A=1".to_vec()));
    assert_eq!(load_entries("default", &input).unwrap().len(), 1);
}

#[test]
fn loads_merge_only_into_what_is_there() {
    assert!(load_target("s", Some(5), false, Some(Ok(file()))).unwrap().is_none());
    assert!(load_target("s", Some(5), true, None).unwrap().is_none());
    let header = load_target("s", None, true, Some(Ok(file()))).unwrap().unwrap();
    assert_eq!((header.generation, header.expiry), ([2; 16], 99));
    assert_eq!(
        error(load_target("s", Some(5), true, Some(Ok(file())))),
        "keyset \"s\" already exists; --ttl applies only to a new keyset (load without --merge to change expiry)"
    );
    assert_eq!(error(load_target("s", None, true, Some(Err(failed())))), "reading keyset: why");
    assert_eq!(
        error(load_target("s", None, true, Some(Ok(vec![1])))),
        "not a tempkeys secret file"
    );
}

#[test]
fn keys_are_set_where_the_keyset_is() {
    assert!(set_target("s", Some(5), None).unwrap().is_none());
    let header = parse_header(&file()).unwrap();
    assert_eq!(set_target("s", None, Some(header)).unwrap().unwrap().expiry, 99);
    let header = parse_header(&file()).unwrap();
    assert_eq!(
        error(set_target("s", Some(5), Some(header))),
        "keyset \"s\" already exists; --ttl applies only to a new keyset (use `load` to change expiry)"
    );
}

#[test]
fn messages_tell_what_was_done() {
    assert_eq!(loaded_message(2, "default", None), "loaded 2 keys into \"default\", no expiry");
    assert_eq!(
        loaded_message(10, "a", Some(3600)),
        "loaded 10 keys into \"a\", expires in 1h"
    );
    assert_eq!(merged_message(1, "a", 3), "merged 1 keys into \"a\" (3 total)");
    assert_eq!(created_message("a", "K", Some(90)), "created keyset \"a\" with K, expires in 90s");
    assert_eq!(set_message("default", "GH_TOKEN"), "set GH_TOKEN in \"default\"");
    assert_eq!(cleared_message("a"), "cleared \"a\"");
    assert_eq!(all_cleared_message(0), "cleared 0 keysets");
}
