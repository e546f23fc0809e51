use tempkeys::ttl::{expiry_from, fmt_expiry, fmt_left, fmt_ttl, parse_ttl, NEVER};

#[test]
fn durations_are_parsed() {
    assert_eq!(parse_ttl("90s"), Ok(90));
    assert_eq!(parse_ttl("90"), Ok(90));
    assert_eq!(parse_ttl("15m"), Ok(900));
    assert_eq!(parse_ttl("8h"), Ok(28800));
    assert_eq!(parse_ttl("2d"), Ok(172800));
    assert_eq!(parse_ttl("007s"), Ok(7));
    assert_eq!(parse_ttl("4294967295s"), Ok(u32::MAX));
}

#[test]
fn durations_that_are_refused() {
    let err = |s: &str| Err::<u32, String>(s.to_string());
    assert_eq!(parse_ttl(""), err("bad duration \"\""));
    assert_eq!(parse_ttl("h"), err("bad duration \"h\""));
    assert_eq!(parse_ttl("-1s"), err("bad duration \"-1s\""));
    assert_eq!(
        parse_ttl("18446744073709551616s"),
        err("bad duration \"18446744073709551616s\"")
    );
    assert_eq!(
        parse_ttl("3w"),
        err("bad duration unit in \"3w\" (use s, m, h, d)")
    );
    assert_eq!(
        parse_ttl("3 s"),
        err("bad duration unit in \"3 s\" (use s, m, h, d)")
    );
    assert_eq!(parse_ttl("0d"), err("duration must be greater than zero"));
    assert_eq!(parse_ttl("4294967296"), err("duration too long"));
    assert_eq!(parse_ttl("18446744073709551615d"), err("duration too long"));
}

#[test]
fn durations_are_written_in_their_largest_unit() {
    assert_eq!(fmt_ttl(86400), "1d");
    assert_eq!(fmt_ttl(90000), "25h");
    assert_eq!(fmt_ttl(120), "2m");
    assert_eq!(fmt_ttl(90), "90s");
    assert_eq!(fmt_ttl(0), "0s");
    assert_eq!(fmt_expiry(None), "no expiry");
    assert_eq!(fmt_expiry(Some(3600)), "expires in 1h");
}

#[test]
fn durations_round_trip() {
    for secs in [1u32, 59, 60, 61, 3600, 3601, 86400, 86401, 172800, u32::MAX] {
        assert_eq!(parse_ttl(&fmt_ttl(secs as u64)), Ok(secs));
    }
}

#[test]
fn time_left_is_rounded_down() {
    assert_eq!(fmt_left(86399), "23h");
    assert_eq!(fmt_left(172799), "1d");
    assert_eq!(fmt_left(3599), "59m");
    assert_eq!(fmt_left(59), "59s");
    assert_eq!(fmt_left(u64::MAX), "213503982334601d");
}

#[test]
fn expiries_are_counted_from_now() {
    assert_eq!(expiry_from(None, 5), NEVER);
    assert_eq!(expiry_from(Some(10), 5), 15);
    assert_eq!(NEVER, u64::MAX);
}
