//! Finding encryption keys in a keyring, and dropping them.
use vstd::prelude::*;
use vstd::string::*;
use crate::errors;
use crate::errors::OsError;
use crate::names;
use crate::scope::Scope;
use crate::script;
use crate::script::{Deed, Op};
use crate::secret::Secret;
use crate::sys;
use crate::sys::{Call, KeyId};
use crate::text;
use crate::vault::Generation;

verus! {

/// Whether a call searches a scope's keyring for the encryption key of a generation.
/// There is none for a keyset whose name holds a NUL character.
pub open spec fn searches(
    call: Result<Call, OsError>,
    scope: Scope,
    set: Seq<char>,
    generation: Seq<u8>,
) -> bool {
    match call {
        Ok(Call::Search { command, ring, kind, desc }) => {
            &&& command == sys::SEARCH
            &&& ring == scope.root
            &&& sys::is_cstr(kind@, "user"@)
            &&& sys::is_cstr(desc@, names::key_description(set, generation))
        },
        Ok(_) => false,
        Err(e) => names::key_description(set, generation).contains('\0') && e.errno is Other
            && e.text@ == "embedded NUL"@,
    }
}

/// The call that searches a scope's keyring for the encryption key of a file's
/// generation.
pub fn key_search(scope: &Scope, set: &str, generation: &Generation) -> (r: Result<Call, OsError>)
    ensures
        searches(r, *scope, set@, generation@),
{
    let desc = names::key_desc(set, generation);
    proof {
        reveal_strlit("user");
        if "user"@.contains('\0') {
            let i = choose|i: int| 0 <= i < "user"@.len() && "user"@[i] == '\0';
            assert("user"@[0] == 'u' && "user"@[1] == 's' && "user"@[2] == 'e' && "user"@[3]
                == 'r');
            assert(false);
        }
    }
    sys::search(scope.root, "user", desc.as_str())
}

/// What came of looking for an encryption key: the search and, where that found it,
/// the reading of its payload.
pub enum KeyReply {
    SearchFailed(OsError),
    Missing,
    ReadFailed(OsError),
    Key(Secret),
}

/// The encryption key that was looked for, `None` if it is gone.
pub open spec fn key_found(reply: KeyReply) -> Result<Option<Seq<u8>>, Seq<char>> {
    match reply {
        KeyReply::SearchFailed(e) => Err(errors::os_message("searching keyring"@, e)),
        KeyReply::Missing => Ok(None),
        KeyReply::ReadFailed(e) => Err(errors::os_message("reading encryption key"@, e)),
        KeyReply::Key(k) => Ok(Some(k@)),
    }
}

/// The encryption key for a file's generation, or None if it is gone.
pub fn find_key(reply: KeyReply) -> (r: Result<Option<Secret>, String>)
    ensures
        match r {
            Ok(Some(k)) => key_found(reply) == Ok::<Option<Seq<u8>>, Seq<char>>(Some(k@)),
            Ok(None) => key_found(reply) == Ok::<Option<Seq<u8>>, Seq<char>>(None),
            Err(e) => key_found(reply) == Err::<Option<Seq<u8>>, Seq<char>>(e@),
        },
{
    match reply {
        KeyReply::SearchFailed(e) => Err(errors::os_err("searching keyring", &e)),
        KeyReply::Missing => Ok(None),
        KeyReply::ReadFailed(e) => Err(errors::os_err("reading encryption key", &e)),
        KeyReply::Key(k) => Ok(Some(k)),
    }
}

/// The message for a keyset whose encryption key is gone.
pub open spec fn locked_message(set: Seq<char>) -> Seq<char> {
    "keyset "@ + text::debug_text(set) + " is locked: its encryption key expired or was cleared"@
}

/// The message for a keyset whose encryption key is gone.
pub fn locked(set: &str) -> (r: String)
    ensures
        r@ == locked_message(set@),
{
    text::join3(
        "keyset ",
        text::quoted(set).as_str(),
        " is locked: its encryption key expired or was cleared",
    )
}

/// The encryption key that a keyset needs, or why it cannot be had.
pub open spec fn key_needed(set: Seq<char>, reply: KeyReply) -> Result<Seq<u8>, Seq<char>> {
    match key_found(reply) {
        Ok(Some(k)) => Ok(k),
        Ok(None) => Err(locked_message(set)),
        Err(e) => Err(e),
    }
}

/// The encryption key that a keyset needs.
pub fn need_key(set: &str, reply: KeyReply) -> (r: Result<Secret, String>)
    ensures
        match r {
            Ok(k) => key_needed(set@, reply) == Ok::<Seq<u8>, Seq<char>>(k@),
            Err(e) => key_needed(set@, reply) == Err::<Seq<u8>, Seq<char>>(e@),
        },
{
    match find_key(reply) {
        Ok(Some(k)) => Ok(k),
        Ok(None) => Err(locked(set)),
        Err(e) => Err(e),
    }
}

/// A key in a keyring: its ID and, where it could be described, its type and its
/// description.
pub type Listed = (KeyId, Option<(Seq<char>, Seq<char>)>);

/// The keys that a list holds.
pub open spec fn listed(list: Seq<(KeyId, Option<(String, String)>)>) -> Seq<Listed> {
    list.map_values(
        |k: (KeyId, Option<(String, String)>)|
            (
                k.0,
                match k.1 {
                    Some((kind, desc)) => Some((kind@, desc@)),
                    None => None,
                },
            ),
    )
}

/// Whether a key is to be dropped: one of type `user` whose description begins with
/// `prefix` and is not `keep`.
pub open spec fn is_doomed(key: Listed, prefix: Seq<char>, keep: Option<Seq<char>>) -> bool {
    match key.1 {
        Some((kind, desc)) => kind == "user"@ && prefix.is_prefix_of(desc) && Some(desc) != keep,
        None => false,
    }
}

/// What drops the keys that are to be dropped: each is revoked and unlinked.
pub open spec fn dropping(
    keys: Seq<Listed>,
    ring: KeyId,
    prefix: Seq<char>,
    keep: Option<Seq<char>>,
) -> Seq<Deed>
    decreases keys.len(),
{
    if keys.len() == 0 {
        Seq::empty()
    } else {
        let front = dropping(keys.drop_last(), ring, prefix, keep);
        let id = keys.last().0;
        if is_doomed(keys.last(), prefix, keep) {
            front.push(Deed::Revoke { id }).push(Deed::Unlink { id, ring })
        } else {
            front
        }
    }
}

/// What `keep` says.
pub open spec fn kept(keep: Option<String>) -> Option<Seq<char>> {
    match keep {
        Some(k) => Some(k@),
        None => None,
    }
}

/// What revokes and unlinks the encryption keys in a keyring whose descriptions
/// begin with `prefix`, except the one described by `keep`.
pub fn drop_keys(
    keys: &Vec<(KeyId, Option<(String, String)>)>,
    ring: KeyId,
    prefix: &str,
    keep: &Option<String>,
) -> (r: Vec<Op>)
    ensures
        script::deeds(r@) == dropping(listed(keys@), ring, prefix@, kept(*keep)),
{
    let mut ops: Vec<Op> = Vec::new();
    let mut i: usize = 0;
    let ghost all = listed(keys@);
    assert(script::deeds(ops@) =~= Seq::<Deed>::empty());
    assert(all.take(0) =~= Seq::<Listed>::empty());
    while i < keys.len()
        invariant
            i <= keys@.len(),
            all == listed(keys@),
            script::deeds(ops@) == dropping(all.take(i as int), ring, prefix@, kept(*keep)),
        decreases keys@.len() - i,
    {
        proof {
            assert(all.take(i + 1).drop_last() =~= all.take(i as int));
            assert(all.take(i + 1).last() == all[i as int]);
        }
        if let Some((kind, desc)) = &keys[i].1 {
            let spared = match keep {
                Some(k) => text::same(desc.as_str(), k.as_str()),
                None => false,
            };
            if text::same(kind.as_str(), "user") && text::starts_with(desc.as_str(), prefix)
                && !spared {
                let id: KeyId = keys[i].0;
                let ghost old_ops = ops@;
                ops.push(Op::Revoke { id });
                ops.push(Op::Unlink { id, ring });
                assert(script::deeds(ops@) =~= script::deeds(old_ops).push(
                    Deed::Revoke { id },
                ).push(Deed::Unlink { id, ring }));
            }
        }
        i = i + 1;
    }
    assert(all.take(i as int) =~= all);
    ops
}

/// Every key that is revoked or unlinked is one that is to be dropped, and every one
/// that is to be dropped is revoked and unlinked.
pub proof fn law_drops_exactly(
    keys: Seq<Listed>,
    ring: KeyId,
    prefix: Seq<char>,
    keep: Option<Seq<char>>,
)
    ensures
        forall|d: Deed| #[trigger]
            dropping(keys, ring, prefix, keep).contains(d) <==> exists|i: int|
                0 <= i < keys.len() && is_doomed(#[trigger] keys[i], prefix, keep) && (d
                    == (Deed::Revoke { id: keys[i].0 }) || d == (Deed::Unlink {
                    id: keys[i].0,
                    ring,
                })),
    decreases keys.len(),
{
    let all = dropping(keys, ring, prefix, keep);
    if keys.len() > 0 {
        let less = keys.drop_last();
        let front = dropping(less, ring, prefix, keep);
        law_drops_exactly(less, ring, prefix, keep);
        let id = keys.last().0;
        let last = keys.len() - 1;
        assert forall|d: Deed| #[trigger] all.contains(d) implies exists|i: int|
            0 <= i < keys.len() && is_doomed(#[trigger] keys[i], prefix, keep) && (d == (
            Deed::Revoke { id: keys[i].0 }) || d == (Deed::Unlink { id: keys[i].0, ring })) by {
            let k = choose|k: int| 0 <= k < all.len() && all[k] == d;
            if k < front.len() {
                assert(front[k] == d);
                assert(front.contains(d));
                let i = choose|i: int|
                    0 <= i < less.len() && is_doomed(#[trigger] less[i], prefix, keep) && (d == (
                    Deed::Revoke { id: less[i].0 }) || d == (Deed::Unlink { id: less[i].0, ring }));
                assert(keys[i] == less[i]);
            } else {
                assert(keys[last] == keys.last());
            }
        }
        assert forall|d: Deed|
            (exists|i: int|
                0 <= i < keys.len() && is_doomed(#[trigger] keys[i], prefix, keep) && (d == (
                Deed::Revoke { id: keys[i].0 }) || d == (Deed::Unlink {
                    id: keys[i].0,
                    ring,
                }))) implies #[trigger] all.contains(d) by {
            let i = choose|i: int|
                0 <= i < keys.len() && is_doomed(#[trigger] keys[i], prefix, keep) && (d == (
                Deed::Revoke { id: keys[i].0 }) || d == (Deed::Unlink { id: keys[i].0, ring }));
            if i < last {
                assert(less[i] == keys[i]);
                assert(front.contains(d));
                let k = choose|k: int| 0 <= k < front.len() && front[k] == d;
                assert(all[k] == d);
            } else {
                assert(all[all.len() - 2] == (Deed::Revoke { id }));
                assert(all[all.len() - 1] == (Deed::Unlink { id, ring }));
            }
        }
    }
}

/// Dropping the keys of one keyset never dooms a key of another, nor the key that
/// marks a session.
pub proof fn law_drop_spares_others(
    set: Seq<char>,
    other: Seq<char>,
    generation: Seq<u8>,
    kind: Seq<char>,
    id: KeyId,
    keep: Option<Seq<char>>,
)
    requires
        names::is_set_name(set),
        names::is_set_name(other),
        set != other,
    ensures
        !is_doomed(
            (id, Some((kind, names::key_description(other, generation)))),
            names::set_prefix(set),
            keep,
        ),
        !is_doomed(
            (id, Some((kind, names::SESSION_MARKER@))),
            names::set_prefix(set),
            keep,
        ),
        !is_doomed((id, Some((kind, names::SESSION_MARKER@))), names::KEY_PREFIX@, keep),
{
    names::law_set_prefix(set, other, generation);
    names::law_marker_apart(set, generation);
    let p = names::set_prefix(set);
    let m = names::SESSION_MARKER@;
    let k = names::KEY_PREFIX@;
    if p.is_prefix_of(m) {
        assert(k =~= m.subrange(0, k.len() as int)) by {
            assert forall|i: int| 0 <= i < k.len() implies k[i] == m.subrange(
                0,
                k.len() as int,
            )[i] by {
                assert(p[i] == k[i]);
                assert(p[i] == m.subrange(0, p.len() as int)[i]);
            }
        }
        assert(k.is_prefix_of(m));
    }
}

/// Clearing a keyset drops every encryption key that it ever had, and clearing all of
/// them drops those of every keyset.
pub proof fn law_clear_drops_all(set: Seq<char>, generation: Seq<u8>, id: KeyId)
    requires
        names::is_set_name(set),
    ensures
        is_doomed(
            (id, Some(("user"@, names::key_description(set, generation)))),
            names::set_prefix(set),
            None,
        ),
        is_doomed(
            (id, Some(("user"@, names::key_description(set, generation)))),
            names::KEY_PREFIX@,
            None,
        ),
{
    names::law_set_prefix(set, set, generation);
    names::law_marker_apart(set, generation);
}

/// A key is dropped exactly if it is of type `user`, its description goes on from the
/// prefix, and it is not the one to keep; one that could not be described is not.
pub proof fn law_doomed(
    id: KeyId,
    kind: Seq<char>,
    prefix: Seq<char>,
    rest: Seq<char>,
    desc: Seq<char>,
    keep: Option<Seq<char>>,
)
    ensures
        is_doomed((id, Some((kind, prefix + rest))), prefix, keep) <==> kind == "user"@ && keep
            != Some(prefix + rest),
        is_doomed((id, Some((kind, desc))), prefix, keep) ==> exists|tail: Seq<char>|
            desc == #[trigger] (prefix + tail),
        !is_doomed((id, None), prefix, keep),
{
    let d = prefix + rest;
    assert(prefix =~= d.subrange(0, prefix.len() as int));
    if prefix.is_prefix_of(desc) {
        let tail = desc.skip(prefix.len() as int);
        assert(prefix =~= desc.subrange(0, prefix.len() as int));
        assert(desc =~= prefix + tail);
    }
}

/// A key that was found and read is the one that is used; one that is missing locks its
/// keyset; and where looking for it failed, that is told.
pub proof fn law_key_needed(set: Seq<char>, key: Secret, e: OsError)
    ensures
        key_needed(set, KeyReply::Key(key)) == Ok::<Seq<u8>, Seq<char>>(key@),
        key_found(KeyReply::Key(key)) == Ok::<Option<Seq<u8>>, Seq<char>>(Some(key@)),
        key_found(KeyReply::Missing) == Ok::<Option<Seq<u8>>, Seq<char>>(None),
        key_needed(set, KeyReply::Missing) == Err::<Seq<u8>, Seq<char>>(
            "keyset "@ + text::debug_text(set)
                + " is locked: its encryption key expired or was cleared"@,
        ),
        key_needed(set, KeyReply::SearchFailed(e)) == Err::<Seq<u8>, Seq<char>>(
            errors::os_message("searching keyring"@, e),
        ),
        key_needed(set, KeyReply::ReadFailed(e)) == Err::<Seq<u8>, Seq<char>>(
            errors::os_message("reading encryption key"@, e),
        ),
{
}

/// The keys of a keyring are taken as they are described.
pub proof fn law_keys_listed(list: Seq<(KeyId, Option<(String, String)>)>, i: int)
    requires
        0 <= i < list.len(),
    ensures
        listed(list).len() == list.len(),
        listed(list)[i].0 == list[i].0,
        match list[i].1 {
            Some((kind, desc)) => listed(list)[i].1 == Some((kind@, desc@)),
            None => listed(list)[i].1 is None,
        },
{
}

/// The key to keep is the one that was named.
pub proof fn law_kept(k: String)
    ensures
        kept(Some(k)) == Some(k@),
        kept(None) is None,
{
}

} // verus!
