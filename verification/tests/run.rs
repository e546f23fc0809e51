use tempkeys::errors::{Errno, OsError};
use tempkeys::run::{mappings, parse_mapping, populate, populating};
use tempkeys::script::{Action, Op, Outcome, Runner, Stage};
use tempkeys::secret::Secret;
use tempkeys::session::{
    add_marker, advance, argv, check_start, close_ring, loaded_message, open_ring, protect_marker,
    Event, Start,
};
use tempkeys::sys::Call;

fn texts(list: &[&str]) -> Vec<String> {
    list.iter().map(|s| s.to_string()).collect()
}

fn pairs(list: &[(&str, &str)]) -> Vec<(String, String)> {
    list.iter().map(|(a, b)| (a.to_string(), b.to_string())).collect()
}

fn error<T>(r: Result<T, String>) -> String {
    match r {
        Ok(_) => panic!("no error"),
        Err(e) => e,
    }
}

#[test]
fn mappings_are_parsed() {
    assert_eq!(parse_mapping("A=b"), Ok(("A".to_string(), "b".to_string())));
    assert_eq!(parse_mapping("A"), Ok(("A".to_string(), "A".to_string())));
    assert_eq!(
        error(parse_mapping("A-=b")),
        "bad -e \"A-=b\": invalid variable name \"A-\""
    );
    assert_eq!(error(parse_mapping("A=b=c")), "bad -e \"A=b=c\": invalid key name \"b=c\"");
    assert_eq!(error(parse_mapping("A=")), "bad -e \"A=\": invalid key name \"\"");
    assert_eq!(error(parse_mapping("")), "bad -e \"\": invalid variable name \"\"");
}

#[test]
fn variables_are_sorted_and_come_once() {
    assert_eq!(
        mappings("s", &texts(&["B=x", "A", "C=x"]), None),
        Ok(pairs(&[("A", "A"), ("B", "x"), ("C", "x")]))
    );
    assert_eq!(
        mappings("s", &Vec::new(), Some(texts(&["K2", "K1"]))),
        Ok(pairs(&[("K1", "K1"), ("K2", "K2")]))
    );
    assert_eq!(mappings("s", &Vec::new(), Some(Vec::new())), Ok(Vec::new()));
    assert_eq!(error(mappings("s", &Vec::new(), None)), "no keyset \"s\"");
    assert_eq!(
        error(mappings("s", &texts(&["Z=1a", "C", "B=y", "C=x", "B"]), None)),
        "bad -e \"Z=1a\": invalid key name \"1a\""
    );
    assert_eq!(
        error(mappings("s", &texts(&["C", "B=y", "C=x", "B"]), None)),
        "variable B is mapped more than once"
    );
}

#[test]
fn a_missing_key_populates_nothing() {
    let list = pairs(&[("A", "k1"), ("B", "k2")]);
    let ok = |b: &[u8]| Ok::<Secret, String>(Secret(b.to_vec()));
    let env = populate(&list, vec![ok(b"1"), ok(b"\xff")]).unwrap();
    assert_eq!(env[0].0, "A");
    assert_eq!(env[1].0, "B");
    assert_eq!(env[1].1 .0, b"\xff");
    assert_eq!(error(populate(&list, vec![Err("gone".to_string())])), "gone");
    assert_eq!(
        error(populate(&list, vec![ok(b"1"), Err("gone".to_string())])),
        "gone"
    );
    assert_eq!(
        error(populate(&list, vec![ok(b"1"), ok(b"a\0b")])),
        "key k2 contains a NUL byte and can't be an environment variable (use `get`)"
    );
}

#[test]
fn populated_variables_are_told() {
    let list = pairs(&[("A", "A"), ("GH_TOKEN", "github_token")]);
    assert_eq!(
        populating(&list, 1, "user", "default"),
        "tempkeys: populating A GH_TOKEN=github_token"
    );
    assert_eq!(
        populating(&list[1..].to_vec(), 2, "session", "default"),
        "tempkeys: populating GH_TOKEN=github_token (from session keyset \"default\")"
    );
    assert_eq!(populating(&Vec::new(), 1, "user", "x"), "tempkeys: populating ");
}

#[test]
fn sessions_need_a_command_where_stdin_is_used_up() {
    assert!(check_start(true, &texts(&["x"])).is_ok());
    assert!(check_start(false, &Vec::new()).is_ok());
    assert_eq!(
        error(check_start(true, &Vec::new())),
        "stdin is piped into the keyset, so a COMMAND is required"
    );
}

#[test]
fn sessions_run_the_command_or_a_shell() {
    let shell = || Some("/bin/zsh".to_string());
    assert_eq!(argv(&texts(&["a", "b"]), shell()), texts(&["a", "b"]));
    assert_eq!(argv(&Vec::new(), shell()), texts(&["/bin/zsh"]));
    assert_eq!(argv(&Vec::new(), None), texts(&["/bin/sh"]));
    assert_eq!(
        loaded_message(2, "s", None),
        "loaded 2 keys into session keyset \"s\", no expiry"
    );
}

#[test]
fn session_keyrings_are_private_before_keys_go_in() {
    let mut state = Start::Joining;
    let mut steps = Vec::new();
    while state != Start::Ready {
        steps.push(state);
        let event = match state {
            Start::Joining => Event::Called(Ok(70)),
            Start::Marking { .. } => Event::Called(Ok(71)),
            _ => Event::Ran(Ok(())),
        };
        state = match advance(state, event) {
            Ok(next) => next,
            Err(e) => panic!("{e}"),
        };
    }
    assert!(
        steps
            == vec![
                Start::Joining,
                Start::Opening { ring: 70 },
                Start::Marking { ring: 70 },
                Start::Protecting { ring: 70, marker: 71 },
                Start::Populating { ring: 70 },
                Start::Closing { ring: 70 },
            ]
    );
    let failed = || OsError { errno: Errno::Other, text: "why".to_string() };
    assert_eq!(
        error(advance(Start::Joining, Event::Called(Err(failed())))),
        "joining session keyring: why"
    );
    assert_eq!(
        error(advance(Start::Marking { ring: 1 }, Event::Called(Err(failed())))),
        "marking session: why"
    );
    assert_eq!(
        error(advance(Start::Closing { ring: 1 }, Event::Ran(Err("why".to_string())))),
        "why"
    );
}

fn only_perm(stages: Vec<Stage>) -> (i32, u32, String) {
    let runner = Runner::new(stages);
    let set = match runner.action() {
        Action::Perform(Op::SetPerm { id, perm }) => (*id, *perm),
        _ => panic!("something else comes first"),
    };
    let failure = OsError { errno: Errno::Other, text: "why".to_string() };
    let runner = runner.tell(&Outcome::Failed(failure));
    assert!(matches!(runner.action(), Action::Finished));
    (set.0, set.1, error(runner.verdict()))
}

#[test]
fn session_permissions() {
    assert_eq!(
        only_perm(open_ring(7)),
        (7, 0x3f00_0000, "restricting session keyring: why".to_string())
    );
    assert_eq!(
        only_perm(protect_marker(8)),
        (8, 0x0b00_0000, "marking session: why".to_string())
    );
    assert_eq!(
        only_perm(close_ring(7)),
        (7, 0x1f00_0000, "restricting session keyring: why".to_string())
    );
    match add_marker(7) {
        Ok(Call::AddKey { kind, desc, payload, ring }) => {
            assert_eq!(kind, b"user\0");
            assert_eq!(desc, b"tempkeys:session\0");
            assert_eq!(payload.0, b"1");
            assert_eq!(ring, 7);
        }
        _ => panic!("no call to add the marker"),
    }
}
