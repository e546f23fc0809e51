//! Loading keysets and setting single keys: what is checked, what is decided and
//! what is told.
use vstd::prelude::*;
use vstd::string::*;
use crate::errors;
use crate::errors::OsError;
use crate::input;
use crate::input::Input;
use crate::names;
use crate::parse;
use crate::parse::Entry;
use crate::secret::Secret;
use crate::store;
use crate::text;
use crate::ttl;
use crate::vault;
use crate::vault::Header;

verus! {

/// The entries that are to be loaded into a keyset.
pub open spec fn entries_to_load(set: Seq<char>, input: Input) -> Result<Seq<Entry>, Seq<char>> {
    if names::is_set_name(set) {
        input::input_keyset(input)
    } else {
        Err("invalid keyset name "@ + text::debug_text(set))
    }
}

/// The entries that are to be loaded into a keyset. Bad input is refused here, before
/// anything is touched.
pub fn load_entries(set: &str, input: &Input) -> (r: Result<Vec<(String, Secret)>, String>)
    ensures
        parse::gives(r, entries_to_load(set@, *input)),
{
    match names::check_set(set) {
        Ok(_) => input::stdin_keyset(input),
        Err(e) => Err(e),
    }
}

/// The message for a duration that was given for a keyset that is there already.
pub open spec fn ttl_refused(set: Seq<char>, advice: Seq<char>) -> Seq<char> {
    "keyset "@ + text::debug_text(set)
        + " already exists; --ttl applies only to a new keyset ("@ + advice + " to change expiry)"@
}

/// The message for a duration that was given for a keyset that is there already.
fn refuse_ttl(set: &str, advice: &str) -> (r: String)
    ensures
        r@ == ttl_refused(set@, advice@),
{
    text::join5(
        "keyset ",
        text::quoted(set).as_str(),
        " already exists; --ttl applies only to a new keyset (",
        advice,
        " to change expiry)",
    )
}

/// Where a load goes: into the existing keyset with this header if it merges and
/// there is one, else into a new keyset. `first` is what came of reading the first
/// file of the keyset.
pub fn load_target(
    set: &str,
    ttl: Option<u32>,
    merge: bool,
    first: Option<Result<Vec<u8>, OsError>>,
) -> (r: Result<Option<Header>, String>)
    ensures
        if !merge {
            r matches Ok(None)
        } else {
            match first {
                None => r matches Ok(None),
                Some(Err(e)) => r matches Err(m) && m@ == errors::io_message("reading keyset"@, e),
                Some(Ok(file)) => if !vault::is_file(file@) {
                    r matches Err(m) && m@ == "not a tempkeys secret file"@
                } else if ttl is Some {
                    r matches Err(m) && m@ == ttl_refused(set@, "load without --merge"@)
                } else {
                    r matches Ok(Some(h)) && h.generation@ == vault::generation_of(file@)
                        && h.expiry == vault::expiry_of(file@)
                },
            }
        },
{
    if !merge {
        return Ok(None);
    }
    match store::existing_header(first) {
        Ok(Some(header)) => if ttl.is_some() {
            Err(refuse_ttl(set, "load without --merge"))
        } else {
            Ok(Some(header))
        },
        Ok(None) => Ok(None),
        Err(e) => Err(e),
    }
}

/// What a load into a new keyset tells.
pub fn loaded_message(count: usize, set: &str, ttl: Option<u32>) -> (r: String)
    ensures
        r@ == "loaded "@ + text::decimal(count as nat) + " keys into "@ + text::debug_text(set@)
            + ", "@ + ttl::expiry_text(ttl),
{
    let mut r = text::join4(
        "loaded ",
        text::decimal_text(count as u64).as_str(),
        " keys into ",
        text::quoted(set).as_str(),
    );
    r.append(", ");
    r.append(ttl::fmt_expiry(ttl).as_str());
    r
}

/// What a merge tells.
pub fn merged_message(count: usize, set: &str, total: usize) -> (r: String)
    ensures
        r@ == "merged "@ + text::decimal(count as nat) + " keys into "@ + text::debug_text(set@)
            + " ("@ + text::decimal(total as nat) + " total)"@,
{
    let mut r = text::join4(
        "merged ",
        text::decimal_text(count as u64).as_str(),
        " keys into ",
        text::quoted(set).as_str(),
    );
    r.append(" (");
    r.append(text::decimal_text(total as u64).as_str());
    r.append(" total)");
    r
}

/// Where a single key goes: into the existing keyset if there is one, else into a new
/// keyset. Only a new one takes a duration.
pub fn set_target(set: &str, ttl: Option<u32>, existing: Option<Header>) -> (r: Result<
    Option<Header>,
    String,
>)
    ensures
        match existing {
            None => r matches Ok(None),
            Some(h) => if ttl is Some {
                r matches Err(m) && m@ == ttl_refused(set@, "use `load`"@)
            } else {
                r == Ok::<Option<Header>, String>(Some(h))
            },
        },
{
    match existing {
        None => Ok(None),
        Some(header) => if ttl.is_some() {
            Err(refuse_ttl(set, "use `load`"))
        } else {
            Ok(Some(header))
        },
    }
}

/// What setting a key in a new keyset tells.
pub fn created_message(set: &str, key: &str, ttl: Option<u32>) -> (r: String)
    ensures
        r@ == "created keyset "@ + text::debug_text(set@) + " with "@ + key@ + ", "@
            + ttl::expiry_text(ttl),
{
    let mut r = text::join5("created keyset ", text::quoted(set).as_str(), " with ", key, ", ");
    r.append(ttl::fmt_expiry(ttl).as_str());
    r
}

/// What setting a key in an existing keyset tells.
pub fn set_message(set: &str, key: &str) -> (r: String)
    ensures
        r@ == "set "@ + key@ + " in "@ + text::debug_text(set@),
{
    text::join4("set ", key, " in ", text::quoted(set).as_str())
}

/// What clearing one keyset tells.
pub fn cleared_message(set: &str) -> (r: String)
    ensures
        r@ == "cleared "@ + text::debug_text(set@),
{
    text::join2("cleared ", text::quoted(set).as_str())
}

/// What clearing all keysets tells.
pub fn all_cleared_message(count: usize) -> (r: String)
    ensures
        r@ == "cleared "@ + text::decimal(count as nat) + " keysets"@,
{
    text::join3("cleared ", text::decimal_text(count as u64).as_str(), " keysets")
}

/// Bad input gives no entries at all, so that a load of it changes nothing: what is
/// loaded is always a keyset.
pub proof fn law_only_keysets_load(set: Seq<char>, input: Input)
    ensures
        entries_to_load(set, input) matches Ok(list) ==> parse::is_keyset(list)
            && names::is_set_name(set),
{
    if let Input::Bytes(raw) = input {
        parse::law_keyset_valid(vstd::utf8::decode_utf8(raw@));
    }
}

/// What is piped in is loaded as it is, into any keyset whose name is valid.
pub proof fn law_loads(set: Seq<char>, raw: Secret, t: Seq<char>)
    requires
        raw@ == vstd::utf8::encode_utf8(t),
    ensures
        names::is_set_name(set) ==> entries_to_load(set, Input::Bytes(raw)) == parse::keyset(t),
        !names::is_set_name(set) ==> entries_to_load(set, Input::Bytes(raw)) is Err,
{
    input::law_piped(raw, t);
}

/// A duration for a keyset that is there already is refused with the keyset's name and
/// what to do instead.
pub proof fn law_ttl_refused(set: Seq<char>, advice: Seq<char>)
    ensures
        ("keyset "@ + text::debug_text(set)).is_prefix_of(ttl_refused(set, advice)),
        ("("@ + advice + " to change expiry)"@).is_suffix_of(ttl_refused(set, advice)),
{
    let m = ttl_refused(set, advice);
    let front = "keyset "@ + text::debug_text(set);
    let back = "("@ + advice + " to change expiry)"@;
    reveal_strlit("(");
    reveal_strlit(" already exists; --ttl applies only to a new keyset (");
    let mid = " already exists; --ttl applies only to a new keyset ("@;
    assert(mid.last() == '(');
    assert(front =~= m.subrange(0, front.len() as int));
    assert(back =~= m.subrange(m.len() - back.len(), m.len() as int));
}

} // verus!
