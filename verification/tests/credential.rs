use tempkeys::credential::{credential_request_matches, git_credential_noop, Approved, Helper};
use tempkeys::errors::{Errno, OsError};
use tempkeys::secret::Secret;

#[test]
fn only_matches_https_for_the_configured_host() {
    assert!(credential_request_matches(
        "protocol=https\nhost=github.com\n\n",
        "github.com"
    ));
    assert!(!credential_request_matches(
        "protocol=http\nhost=github.com\n\n",
        "github.com"
    ));
    assert!(!credential_request_matches(
        "protocol=https\nhost=other.example\n\n",
        "github.com"
    ));
    assert!(!credential_request_matches(
        "protocol=https\nhost=github.com.evil.example\n\n",
        "github.com"
    ));
}

#[test]
fn store_and_erase_do_not_require_a_keyset() {
    assert!(git_credential_noop("store").is_ok());
    assert!(git_credential_noop("erase").is_ok());
    assert!(git_credential_noop("unknown").is_err());
}

#[test]
fn the_last_line_counts_and_the_first_empty_one_ends() {
    assert!(credential_request_matches(
        "host=a\r\nprotocol=http\npath=x=y\nprotocol=https\nhost=b",
        "b"
    ));
    assert!(!credential_request_matches(
        "protocol=https\n\nhost=b\n",
        "b"
    ));
    assert!(!credential_request_matches("", "b"));
    assert!(!credential_request_matches("protocol\nhost\n", "b"));
    assert!(credential_request_matches("protocol=https\nhost=a=b\n", "a=b"));
}

fn helper() -> Helper {
    match Helper::new("get", "me", "h") {
        Ok(Some(helper)) => helper,
        _ => panic!("no helper"),
    }
}

fn approved() -> Approved {
    match helper().request(Ok("protocol=https\nhost=h\n\n".to_string())) {
        Ok(Some(approved)) => approved,
        _ => panic!("not approved"),
    }
}

fn error<T>(r: Result<T, String>) -> String {
    match r {
        Ok(_) => panic!("no error"),
        Err(e) => e,
    }
}

#[test]
fn operations_and_names_are_checked() {
    assert!(matches!(Helper::new("get", "x-access-token", "github.com"), Ok(Some(_))));
    assert!(matches!(Helper::new("get", "u", "h=x"), Ok(Some(_))));
    assert!(matches!(Helper::new("store", "", ""), Ok(None)));
    assert!(matches!(Helper::new("erase", "a=b", ""), Ok(None)));
    assert_eq!(
        error(Helper::new("fill", "u", "h")),
        "unsupported Git credential operation \"fill\""
    );
    for (user, host) in [
        ("", "h"),
        ("u\n", "h"),
        ("u\r", "h"),
        ("u=", "h"),
        ("u", ""),
        ("u", "h\n"),
        ("u", "\rh"),
    ] {
        assert_eq!(error(Helper::new("get", user, host)), "invalid credential username or host");
    }
}

#[test]
fn requests_are_limited() {
    let line = "protocol=https\nhost=h\n";
    let mut request = line.to_string();
    request.push_str(&"x".repeat(64 * 1024 - line.len()));
    assert!(matches!(helper().request(Ok(request.clone())), Ok(Some(_))));
    request.push('x');
    assert_eq!(error(helper().request(Ok(request))), "Git credential request is too large");
    assert!(matches!(helper().request(Ok("protocol=https".to_string())), Ok(None)));
    let failed = OsError { errno: Errno::Other, text: "broken".to_string() };
    assert_eq!(
        error(helper().request(Err(failed))),
        "reading Git credential request: broken"
    );
}

#[test]
fn answers_are_two_lines() {
    let got = approved().answer("K", &Secret(vec![b't', 0, 0xff])).unwrap();
    assert_eq!(got.0, b"username=me\npassword=t\x00\xff\n\n");
    for bad in [&b""[..], b"a\nb", b"a\r", b"\n"] {
        assert_eq!(
            error(approved().answer("K", &Secret(bad.to_vec()))),
            "key \"K\" cannot be used as a Git credential"
        );
    }
}
