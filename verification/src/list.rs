//! Listing keysets and the names of their keys.
use vstd::prelude::*;
use vstd::string::*;
use crate::errors::OsError;
use crate::keyring;
use crate::keyring::KeyReply;
use crate::secret::Secret;
use crate::store;
use crate::text;
use crate::ttl;
use crate::vault;

verus! {

/// The state of a keyset, from the first of its files and what came of looking for
/// that file's encryption key.
pub open spec fn state_text(file: Option<Vec<u8>>, key: KeyReply, now: u64) -> Seq<char> {
    match file {
        Some(f) => if !vault::is_file(f@) {
            Seq::empty()
        } else {
            match keyring::key_found(key) {
                Ok(Some(_)) => if vault::expiry_of(f@) == ttl::NEVER {
                    "no expiry"@
                } else {
                    let expiry = vault::expiry_of(f@);
                    "expires in "@ + ttl::left_text(
                        if expiry > now {
                            (expiry - now) as nat
                        } else {
                            0
                        },
                    )
                },
                _ => "locked"@,
            }
        },
        None => Seq::empty(),
    }
}

/// The state of a keyset: when it expires, or that it is locked. Nothing is said of
/// one whose first file is missing or is none.
pub fn state(file: &Option<Vec<u8>>, key: &KeyReply, now: u64) -> (r: String)
    ensures
        r@ == state_text(*file, *key, now),
{
    match vault::header_of(file) {
        Some(h) => match key {
            KeyReply::Key(_) => if h.expiry == ttl::NEVER {
                "no expiry".to_owned()
            } else {
                text::join2("expires in ", ttl::fmt_left(h.expiry.saturating_sub(now)).as_str())
            },
            _ => "locked".to_owned(),
        },
        None => {
            let r = String::new();
            assert(r@ =~= Seq::<char>::empty());
            r
        },
    }
}

/// The line that lists a keyset: with more than one scope in play the label of its own,
/// its name, the number of its keys and its state.
pub open spec fn line_text(
    scopes: nat,
    label: Seq<char>,
    set: Seq<char>,
    keys: nat,
    state: Seq<char>,
) -> Seq<char> {
    (if scopes > 1 {
        label + "\t"@
    } else {
        Seq::empty()
    }) + set + "\t"@ + text::decimal(keys) + " keys\t"@ + state
}

/// The line that lists a keyset, from the number of its keys, the first of its files and
/// what came of looking for that file's encryption key.
pub fn keyset_line(
    scopes: usize,
    label: &str,
    set: &str,
    keys: usize,
    first: &Option<Vec<u8>>,
    key: &KeyReply,
    now: u64,
) -> (r: String)
    ensures
        r@ == line_text(
            scopes as nat,
            label@,
            set@,
            keys as nat,
            state_text(*first, *key, now),
        ),
{
    let mut r = String::new();
    assert(r@ =~= Seq::<char>::empty());
    if scopes > 1 {
        r.append(label);
        r.append("\t");
        assert(r@ =~= label@ + "\t"@);
    }
    r.append(set);
    r.append("\t");
    r.append(text::decimal_text(keys as u64).as_str());
    r.append(" keys\t");
    r.append(state(first, key, now).as_str());
    r
}

/// The message for a keyset whose keys cannot be listed.
pub fn no_keyset(set: &str) -> (r: String)
    ensures
        r@ == store::no_keyset(set@),
{
    text::join2("no keyset ", text::quoted(set).as_str())
}

/// The letter of a unit of time.
pub open spec fn unit_letter(unit: nat) -> char {
    if unit == 86400 {
        'd'
    } else if unit == 3600 {
        'h'
    } else if unit == 60 {
        'm'
    } else {
        's'
    }
}

/// A keyset whose key is there is shown with the time that is left of it, which is its
/// expiry less the present time: a number of units of which no more than that have to
/// pass, and one more would be too many, in the largest unit of which there is one.
pub proof fn law_state(file: Vec<u8>, key: Secret, now: u64, left: nat)
    requires
        vault::is_file(file@),
        vault::expiry_of(file@) == now + left,
        vault::expiry_of(file@) != u64::MAX,
    ensures
        exists|n: nat, unit: nat|
            state_text(Some(file), KeyReply::Key(key), now) == "expires in "@ + text::decimal(n)
                + seq![unit_letter(unit)] && #[trigger] (n * unit) <= left < n * unit + unit && (
            unit == 86400 || unit == 3600 && left < 86400 || unit == 60 && left < 3600 || unit == 1
                && left < 60),
{
    ttl::law_left_rounds_down(left);
    reveal_strlit("s");
    reveal_strlit("m");
    reveal_strlit("h");
    reveal_strlit("d");
    assert("s"@ =~= seq!['s'] && "m"@ =~= seq!['m'] && "h"@ =~= seq!['h'] && "d"@ =~= seq!['d']);
    let (n, unit) = choose|n: nat, unit: nat|
        ttl::left_text(left) == text::decimal(n) + (if unit == 86400 {
            "d"@
        } else if unit == 3600 {
            "h"@
        } else if unit == 60 {
            "m"@
        } else {
            "s"@
        }) && #[trigger] (n * unit) <= left < n * unit + unit && (n > 0 || unit == 1) && (unit
            == 86400 || unit == 3600 && left < 86400 || unit == 60 && left < 3600 || unit == 1
            && left < 60);
    let shown = "expires in "@ + text::decimal(n) + seq![unit_letter(unit)];
    assert(ttl::left_text(left) == text::decimal(n) + seq![unit_letter(unit)]);
    assert(shown =~= "expires in "@ + ttl::left_text(left));
    assert(state_text(Some(file), KeyReply::Key(key), now) == shown);
    assert(n * unit <= left < n * unit + unit);
}

/// The state depends on the time that is left alone: it stays where expiry and present
/// time are both moved.
pub proof fn law_state_moves(
    file: Vec<u8>,
    key: Secret,
    now: u64,
    other: Vec<u8>,
    other_key: Secret,
    later: u64,
)
    requires
        vault::is_file(file@),
        vault::is_file(other@),
        vault::expiry_of(file@) != u64::MAX,
        vault::expiry_of(other@) != u64::MAX,
        vault::expiry_of(file@) - now == vault::expiry_of(other@) - later,
    ensures
        state_text(Some(file), KeyReply::Key(key), now) == state_text(
            Some(other),
            KeyReply::Key(other_key),
            later,
        ),
{
}

/// What has expired has no time left, what never expires is shown so, a keyset whose key
/// could not be found is locked, and nothing is said of one without a secret file.
pub proof fn law_states(file: Vec<u8>, key: Secret, e: OsError, now: u64)
    ensures
        !vault::is_file(file@) ==> state_text(Some(file), KeyReply::Key(key), now).len() == 0,
        state_text(None, KeyReply::Key(key), now).len() == 0,
        vault::is_file(file@) ==> {
            &&& vault::expiry_of(file@) == u64::MAX ==> state_text(
                Some(file),
                KeyReply::Key(key),
                now,
            ) == "no expiry"@
            &&& vault::expiry_of(file@) <= now && now < u64::MAX ==> state_text(
                Some(file),
                KeyReply::Key(key),
                now,
            ) == "expires in "@ + seq!['0', 's']
            &&& state_text(Some(file), KeyReply::Missing, now) == "locked"@
            &&& state_text(Some(file), KeyReply::SearchFailed(e), now) == "locked"@
            &&& state_text(Some(file), KeyReply::ReadFailed(e), now) == "locked"@
        },
{
    reveal_strlit("s");
    assert(ttl::left_text(0) =~= seq!['0', 's']) by {
        assert(text::decimal(0) =~= seq![text::digit_char(0)]);
    }
}

/// A keyset's line has its name, the number of its keys and its state, with tabs between
/// them, and the scope's label before them exactly where there is more than one scope.
pub proof fn law_line(
    scopes: nat,
    label: Seq<char>,
    set: Seq<char>,
    keys: nat,
    state: Seq<char>,
)
    ensures
        line_text(1, label, set, keys, state) == set + "\t"@ + text::decimal(keys) + " keys\t"@
            + state,
        scopes <= 1 ==> line_text(scopes, label, set, keys, state) == line_text(
            1,
            label,
            set,
            keys,
            state,
        ),
        scopes > 1 ==> line_text(scopes, label, set, keys, state) == label + "\t"@ + line_text(
            1,
            label,
            set,
            keys,
            state,
        ),
{
    let none = Seq::<char>::empty();
    let plain = set + "\t"@ + text::decimal(keys) + " keys\t"@ + state;
    assert(none + set + "\t"@ + text::decimal(keys) + " keys\t"@ + state =~= plain);
    assert(label + "\t"@ + plain =~= label + "\t"@ + set + "\t"@ + text::decimal(keys) + " keys\t"@
        + state);
}

} // verus!
