//! Durations and expiries.
use vstd::prelude::*;
use vstd::string::*;
use crate::text;

verus! {

/// Expiry recorded in files that never expire.
pub const NEVER: u64 = 0xffff_ffff_ffff_ffff;

/// The seconds of a unit.
pub open spec fn unit_seconds(unit: Seq<char>) -> Option<nat> {
    if unit == ""@ || unit == "s"@ {
        Some(1)
    } else if unit == "m"@ {
        Some(60)
    } else if unit == "h"@ {
        Some(3600)
    } else if unit == "d"@ {
        Some(86400)
    } else {
        None
    }
}

/// The seconds that a duration such as `90s`, `15m`, `8h` or `2d` stands for, or
/// why it is refused.
pub open spec fn ttl_of(s: Seq<char>) -> Result<nat, Seq<char>> {
    let digits = s.take(text::digit_count(s) as int);
    let unit = s.skip(text::digit_count(s) as int);
    if digits.len() == 0 || text::number_value(digits) > u64::MAX {
        Err("bad duration "@ + text::debug_text(s))
    } else {
        match unit_seconds(unit) {
            None => Err("bad duration unit in "@ + text::debug_text(s) + " (use s, m, h, d)"@),
            Some(mult) => {
                let secs = text::number_value(digits) * mult;
                if secs == 0 {
                    Err("duration must be greater than zero"@)
                } else if secs > u32::MAX {
                    Err("duration too long"@)
                } else {
                    Ok(secs)
                }
            },
        }
    }
}

/// The seconds of a unit.
fn unit_value(unit: &str) -> (r: Option<u64>)
    ensures
        match r {
            Some(m) => unit_seconds(unit@) == Some(m as nat),
            None => unit_seconds(unit@) is None,
        },
        r matches Some(m) ==> 1 <= m <= 86400,
{
    if text::same(unit, "") || text::same(unit, "s") {
        Some(1)
    } else if text::same(unit, "m") {
        Some(60)
    } else if text::same(unit, "h") {
        Some(3600)
    } else if text::same(unit, "d") {
        Some(86400)
    } else {
        None
    }
}

/// Parses a duration into seconds.
pub fn parse_ttl(s: &str) -> (r: Result<u32, String>)
    ensures
        match r {
            Ok(secs) => ttl_of(s@) == Ok::<nat, Seq<char>>(secs as nat),
            Err(e) => ttl_of(s@) == Err::<nat, Seq<char>>(e@),
        },
{
    let (digits, unit) = text::split_digits(s);
    let n: u64 = match text::number(digits) {
        Some(n) if !digits.is_empty() => n,
        _ => {
            return Err(text::join2("bad duration ", text::quoted(s).as_str()));
        },
    };
    let mult: u64 = match unit_value(unit) {
        Some(m) => m,
        None => {
            return Err(
                text::join3("bad duration unit in ", text::quoted(s).as_str(), " (use s, m, h, d)"),
            );
        },
    };
    if n == 0 {
        return Err("duration must be greater than zero".to_owned());
    }
    assert(n * mult >= 1) by (nonlinear_arith)
        requires
            n >= 1,
            mult >= 1,
    ;
    match n.checked_mul(mult) {
        Some(secs) if secs <= 0xffff_ffff => Ok(secs as u32),
        _ => Err("duration too long".to_owned()),
    }
}

/// A duration in its largest unit that divides it.
pub open spec fn ttl_text(s: nat) -> Seq<char> {
    if s >= 86400 && s % 86400 == 0 {
        text::decimal(s / 86400) + "d"@
    } else if s >= 3600 && s % 3600 == 0 {
        text::decimal(s / 3600) + "h"@
    } else if s >= 60 && s % 60 == 0 {
        text::decimal(s / 60) + "m"@
    } else {
        text::decimal(s) + "s"@
    }
}

/// A duration in its largest unit that divides it.
pub fn fmt_ttl(s: u64) -> (r: String)
    ensures
        r@ == ttl_text(s as nat),
{
    if s >= 86400 && s % 86400 == 0 {
        text::join2(text::decimal_text(s / 86400).as_str(), "d")
    } else if s >= 3600 && s % 3600 == 0 {
        text::join2(text::decimal_text(s / 3600).as_str(), "h")
    } else if s >= 60 && s % 60 == 0 {
        text::join2(text::decimal_text(s / 60).as_str(), "m")
    } else {
        text::join2(text::decimal_text(s).as_str(), "s")
    }
}

/// A duration rounded down to its largest whole unit.
pub open spec fn left_text(s: nat) -> Seq<char> {
    if s >= 86400 {
        text::decimal(s / 86400) + "d"@
    } else if s >= 3600 {
        text::decimal(s / 3600) + "h"@
    } else if s >= 60 {
        text::decimal(s / 60) + "m"@
    } else {
        text::decimal(s) + "s"@
    }
}

/// Time left, rounded down to its largest whole unit.
pub fn fmt_left(s: u64) -> (r: String)
    ensures
        r@ == left_text(s as nat),
{
    if s >= 86400 {
        text::join2(text::decimal_text(s / 86400).as_str(), "d")
    } else if s >= 3600 {
        text::join2(text::decimal_text(s / 3600).as_str(), "h")
    } else if s >= 60 {
        text::join2(text::decimal_text(s / 60).as_str(), "m")
    } else {
        text::join2(text::decimal_text(s).as_str(), "s")
    }
}

/// When a keyset expires, in words.
pub open spec fn expiry_text(ttl: Option<u32>) -> Seq<char> {
    match ttl {
        None => "no expiry"@,
        Some(t) => "expires in "@ + ttl_text(t as nat),
    }
}

/// When a keyset expires, in words.
pub fn fmt_expiry(ttl: Option<u32>) -> (r: String)
    ensures
        r@ == expiry_text(ttl),
{
    match ttl {
        None => "no expiry".to_owned(),
        Some(t) => text::join2("expires in ", fmt_ttl(t as u64).as_str()),
    }
}

/// The expiry of what is stored at `now`.
pub open spec fn expiry_at(ttl: Option<u32>, now: u64) -> int {
    match ttl {
        None => NEVER as int,
        Some(t) => now + t,
    }
}

/// The expiry that files stored at `now` record.
pub fn expiry_from(ttl: Option<u32>, now: u64) -> (r: u64)
    requires
        expiry_at(ttl, now) <= u64::MAX,
    ensures
        r == expiry_at(ttl, now),
{
    match ttl {
        None => NEVER,
        Some(t) => now + t as u64,
    }
}

/// Digits and a unit after them are cut apart again.
proof fn lemma_duration(n: nat, unit: Seq<char>)
    requires
        unit.len() > 0,
        !text::is_digit(unit[0]),
    ensures
        ({
            let s = text::decimal(n) + unit;
            let k = text::digit_count(s) as int;
            &&& s.take(k) == text::decimal(n)
            &&& s.skip(k) == unit
            &&& s.take(k).len() > 0
            &&& text::number_value(s.take(k)) == n
        }),
{
    let d = text::decimal(n);
    let s = d + unit;
    text::lemma_decimal(n);
    assert forall|i: int| 0 <= i < d.len() implies text::is_digit(s[i]) by {
        assert(text::is_digit(d[i]));
    }
    assert(s[d.len() as int] == unit[0]);
    text::lemma_digit_count(s, d.len() as int);
    assert(s.take(d.len() as int) =~= d);
    assert(s.skip(d.len() as int) =~= unit);
}

/// A duration that is written out is read back as itself.
pub proof fn law_ttl_round_trip(secs: nat)
    requires
        0 < secs <= u32::MAX,
    ensures
        ttl_of(ttl_text(secs)) == Ok::<nat, Seq<char>>(secs),
{
    reveal_strlit("");
    reveal_strlit("s");
    reveal_strlit("m");
    reveal_strlit("h");
    reveal_strlit("d");
    assert(""@.len() == 0 && "s"@.len() == 1 && "m"@.len() == 1 && "h"@.len() == 1 && "d"@.len()
        == 1);
    assert("s"@[0] == 's' && "m"@[0] == 'm' && "h"@[0] == 'h' && "d"@[0] == 'd');
    assert(unit_seconds("s"@) == Some(1nat));
    assert(unit_seconds("m"@) == Some(60nat));
    assert(unit_seconds("h"@) == Some(3600nat));
    assert(unit_seconds("d"@) == Some(86400nat));
    let (n, unit, mult): (nat, Seq<char>, nat) = if secs >= 86400 && secs % 86400 == 0 {
        (secs / 86400, "d"@, 86400)
    } else if secs >= 3600 && secs % 3600 == 0 {
        (secs / 3600, "h"@, 3600)
    } else if secs >= 60 && secs % 60 == 0 {
        (secs / 60, "m"@, 60)
    } else {
        (secs, "s"@, 1)
    };
    lemma_duration(n, unit);
    assert(ttl_text(secs) == text::decimal(n) + unit);
    assert(n * mult == secs) by {
        if mult == 86400 {
            assert(n * 86400 == secs);
        } else if mult == 3600 {
            assert(n * 3600 == secs);
        } else if mult == 60 {
            assert(n * 60 == secs);
        } else {
            assert(mult == 1);
            assert(n * 1 == secs);
        }
    }
}

/// The time left that is shown is never more than there is, and short of it by
/// less than the unit it is shown in, which is the largest of which there is one.
pub proof fn law_left_rounds_down(secs: nat)
    ensures
        exists|n: nat, unit: nat|
            left_text(secs) == text::decimal(n) + (if unit == 86400 {
                "d"@
            } else if unit == 3600 {
                "h"@
            } else if unit == 60 {
                "m"@
            } else {
                "s"@
            }) && #[trigger] (n * unit) <= secs < n * unit + unit && (n > 0 || unit == 1) && (unit
                == 86400 || unit == 3600 && secs < 86400 || unit == 60 && secs < 3600 || unit == 1
                && secs < 60),
{
    let unit: nat = if secs >= 86400 {
        86400
    } else if secs >= 3600 {
        3600
    } else if secs >= 60 {
        60
    } else {
        1
    };
    let n = secs / unit;
    assert(n * unit <= secs < n * unit + unit) by {
        vstd::arithmetic::div_mod::lemma_fundamental_div_mod(secs as int, unit as int);
        vstd::arithmetic::mul::lemma_mul_is_commutative(n as int, unit as int);
    }
    assert(n * unit <= secs < n * unit + unit && (n > 0 || unit == 1) && (unit == 86400 || unit
        == 3600 && secs < 86400 || unit == 60 && secs < 3600 || unit == 1 && secs < 60));
}

/// A duration is its number times the seconds of its unit, where that is more than nothing
/// and fits, for each of the units and for none.
pub proof fn law_duration(digits: Seq<char>, unit: Seq<char>, seconds: nat)
    requires
        digits.len() > 0,
        forall|i: int| 0 <= i < digits.len() ==> text::is_digit(#[trigger] digits[i]),
        ({
            ||| unit == Seq::<char>::empty() && seconds == 1
            ||| unit == seq!['s'] && seconds == 1
            ||| unit == seq!['m'] && seconds == 60
            ||| unit == seq!['h'] && seconds == 60 * 60
            ||| unit == seq!['d'] && seconds == 24 * 60 * 60
        }),
        text::number_value(digits) <= u64::MAX,
    ensures
        0 < text::number_value(digits) * seconds <= u32::MAX ==> ttl_of(digits + unit) == Ok::<
            nat,
            Seq<char>,
        >(text::number_value(digits) * seconds),
        text::number_value(digits) == 0 ==> ttl_of(digits + unit) == Err::<nat, Seq<char>>(
            "duration must be greater than zero"@,
        ),
        text::number_value(digits) * seconds > u32::MAX ==> ttl_of(digits + unit) == Err::<
            nat,
            Seq<char>,
        >("duration too long"@),
{
    let s = digits + unit;
    text::law_digit_count(digits, unit);
    assert(s.take(digits.len() as int) =~= digits);
    assert(s.skip(digits.len() as int) =~= unit);
    reveal_strlit("");
    reveal_strlit("s");
    reveal_strlit("m");
    reveal_strlit("h");
    reveal_strlit("d");
    assert(""@ =~= Seq::<char>::empty());
    assert("s"@ =~= seq!['s'] && "m"@ =~= seq!['m'] && "h"@ =~= seq!['h'] && "d"@ =~= seq!['d']);
    assert(seq!['m'][0] == 'm' && seq!['h'][0] == 'h' && seq!['d'][0] == 'd' && seq!['s'][0]
        == 's');
    let n = text::number_value(digits);
    assert(n == 0 ==> n * seconds == 0) by (nonlinear_arith);
}

/// What does not begin with a number that fits, and what goes on with another unit, is
/// refused.
pub proof fn law_duration_refused(digits: Seq<char>, rest: Seq<char>)
    requires
        forall|i: int| 0 <= i < digits.len() ==> text::is_digit(#[trigger] digits[i]),
        rest.len() > 0 ==> !text::is_digit(rest[0]),
    ensures
        digits.len() == 0 || text::number_value(digits) > u64::MAX ==> ttl_of(digits + rest)
            == Err::<nat, Seq<char>>("bad duration "@ + text::debug_text(digits + rest)),
        digits.len() > 0 && text::number_value(digits) <= u64::MAX && (rest.len() > 1 || rest.len()
            == 1 && rest[0] != 's' && rest[0] != 'm' && rest[0] != 'h' && rest[0] != 'd')
            ==> ttl_of(digits + rest) == Err::<nat, Seq<char>>(
            "bad duration unit in "@ + text::debug_text(digits + rest) + " (use s, m, h, d)"@,
        ),
{
    let s = digits + rest;
    text::law_digit_count(digits, rest);
    assert(s.take(digits.len() as int) =~= digits);
    assert(s.skip(digits.len() as int) =~= rest);
    reveal_strlit("");
    reveal_strlit("s");
    reveal_strlit("m");
    reveal_strlit("h");
    reveal_strlit("d");
    assert(""@.len() == 0 && "s"@.len() == 1 && "m"@.len() == 1 && "h"@.len() == 1 && "d"@.len()
        == 1);
    assert("s"@[0] == 's' && "m"@[0] == 'm' && "h"@[0] == 'h' && "d"@[0] == 'd');
}

/// A duration is shown in the largest unit that divides it.
pub proof fn law_largest_unit(secs: nat)
    requires
        secs > 0,
    ensures
        ttl_text(secs).last() == if secs % 86400 == 0 {
            'd'
        } else if secs % 3600 == 0 {
            'h'
        } else if secs % 60 == 0 {
            'm'
        } else {
            's'
        },
{
    reveal_strlit("s");
    reveal_strlit("m");
    reveal_strlit("h");
    reveal_strlit("d");
    assert("s"@.len() == 1 && "m"@.len() == 1 && "h"@.len() == 1 && "d"@.len() == 1);
    let t = ttl_text(secs);
    assert(t.last() == t[t.len() - 1]);
}

/// What is stored expires when its duration has passed since, and never without one; and
/// so it is told.
pub proof fn law_expiry(ttl: u32, now: u64)
    ensures
        expiry_at(Some(ttl), now) - now == ttl,
        expiry_at(None, now) == u64::MAX,
        expiry_text(None) == "no expiry"@,
        expiry_text(Some(ttl)) == "expires in "@ + ttl_text(ttl as nat),
{
}

} // verus!
