use tempkeys::errors::{gone, io_err, os_err, Errno, OsError};

fn error(errno: Errno) -> OsError {
    OsError { errno, text: "why".to_string() }
}

#[test]
fn hints_follow_the_error() {
    let keyrings =
        " (kernel keyrings unavailable: CONFIG_KEYS off or syscalls blocked by a sandbox)";
    assert_eq!(os_err("x", &error(Errno::NoSys)), format!("x: why{keyrings}"));
    assert_eq!(os_err("x", &error(Errno::Perm)), format!("x: why{keyrings}"));
    assert_eq!(
        os_err("x", &error(Errno::Quota)),
        "x: why (key quota exceeded; see /proc/key-users and /proc/sys/kernel/keys/)"
    );
    assert_eq!(os_err("x", &error(Errno::KeyExpired)), "x: why (key expired)");
    assert_eq!(os_err("x", &error(Errno::NoKey)), "x: why");
    assert_eq!(os_err("x", &error(Errno::KeyRevoked)), "x: why");
    assert_eq!(os_err("x", &error(Errno::Other)), "x: why");
    assert_eq!(io_err("x", &error(Errno::Perm)), "x: why");
}

#[test]
fn gone_for_good() {
    assert!(gone(Errno::NoKey));
    assert!(gone(Errno::KeyExpired));
    assert!(gone(Errno::KeyRevoked));
    assert!(!gone(Errno::Perm));
    assert!(!gone(Errno::Other));
}
