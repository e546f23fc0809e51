//! Best-effort housekeeping: which files can never be decrypted again.
use vstd::prelude::*;
use vstd::string::*;
use crate::keyring;
use crate::keyring::KeyReply;
use crate::read;
use crate::read::FileReply;
use crate::scope;
use crate::scope::Scope;
use crate::script;
use crate::script::{Blame, Deed, Fault, Op, Stage, StageModel, Step, StepModel};
use crate::store;
use crate::sys::KeyId;
use crate::text;
use crate::vault;

verus! {

/// Whether a file's expiry has passed.
pub open spec fn is_expired(file: Seq<u8>, now: u64) -> bool {
    vault::is_file(file) && vault::expiry_of(file) <= now
}

/// Whether a file is to be deleted because its expiry has passed. What is no secret
/// file is left alone.
pub fn expired(file: &[u8], now: u64) -> (r: bool)
    ensures
        r == is_expired(file@, now),
{
    match vault::parse_header(file) {
        Ok(h) => h.expiry <= now,
        Err(_) => false,
    }
}

/// Whether a file's encryption key is gone.
pub open spec fn is_locked(file: Seq<u8>, key: KeyReply) -> bool {
    vault::is_file(file) && key is Missing
}

/// Whether a file is to be deleted because its encryption key is gone. A search that
/// failed does not show that.
pub fn locked(file: &[u8], key: &KeyReply) -> (r: bool)
    ensures
        r == is_locked(file@, *key),
{
    match (vault::parse_header(file), key) {
        (Ok(_), KeyReply::Missing) => true,
        _ => false,
    }
}

/// What is known of a key of a keyset: its name, its file if it could be read, and
/// what came of looking for the file's encryption key.
pub struct Sighting {
    pub name: String,
    pub file: Option<Vec<u8>>,
    pub key: KeyReply,
}

/// Whether a key's file is to be deleted because its encryption key is gone.
pub open spec fn is_doomed(seen: Sighting) -> bool {
    seen.file matches Some(f) && is_locked(f@, seen.key)
}

/// The steps that delete the files whose encryption keys are gone.
pub open spec fn delete_steps(scope: Scope, set: Seq<char>, seen: Seq<Sighting>) -> Seq<StepModel>
    decreases seen.len(),
{
    if seen.len() == 0 {
        Seq::empty()
    } else {
        let front = delete_steps(scope, set, seen.drop_last());
        if is_doomed(seen.last()) {
            front.push(
                store::plain(
                    Deed::RemoveFile { path: store::key_path(scope, set, seen.last().name@) },
                    Fault::Ignored,
                ),
            )
        } else {
            front
        }
    }
}

/// Deletes the files of a keyset whose encryption keys are gone, and the keyset's
/// directory once it is empty.
pub open spec fn prune_stage(scope: Scope, set: Seq<char>, seen: Seq<Sighting>) -> StageModel {
    StageModel {
        steps: delete_steps(scope, set, seen).push(
            store::plain(Deed::RemoveDir { path: store::set_path(scope, set) }, Fault::Ignored),
        ),
        refusal: None,
        undo: Seq::empty(),
    }
}

/// The script that deletes the files of a keyset whose encryption keys are gone, and
/// the keyset's directory once it is empty.
pub fn prune_set(scope: &Scope, set: &str, seen: &Vec<Sighting>) -> (r: Vec<Stage>)
    ensures
        script::stage_models(r@) == seq![prune_stage(*scope, set@, seen@)],
{
    let mut steps: Vec<Step> = Vec::new();
    let mut i: usize = 0;
    assert(script::step_models(steps@) =~= Seq::<StepModel>::empty());
    assert(seen@.take(0) =~= Seq::<Sighting>::empty());
    while i < seen.len()
        invariant
            i <= seen@.len(),
            script::step_models(steps@) == delete_steps(*scope, set@, seen@.take(i as int)),
        decreases seen@.len() - i,
    {
        proof {
            assert(seen@.take(i + 1).drop_last() =~= seen@.take(i as int));
            assert(seen@.take(i + 1).last() == seen@[i as int]);
        }
        let doomed = match &seen[i].file {
            Some(f) => locked(f.as_slice(), &seen[i].key),
            None => false,
        };
        if doomed {
            let path = store::key_file(scope, set, seen[i].name.as_str());
            store::then_step(&mut steps, store::step(Op::RemoveFile { path }, Blame::Ignored));
        }
        i = i + 1;
    }
    assert(seen@.take(i as int) =~= seen@);
    let path = store::set_dir(scope, set);
    store::then_step(&mut steps, store::step(Op::RemoveDir { path }, Blame::Ignored));
    let stage = Stage { steps, refusal: None, undo: Vec::new() };
    proof {
        let said = prune_stage(*scope, set@, seen@);
        assert(stage@.steps =~= said.steps);
        assert(stage@.undo =~= said.undo);
    }
    store::single(stage)
}

/// The session whose directory has a name.
pub open spec fn session_of(name: Seq<char>) -> Option<int> {
    if scope::SESSION_DIR_PREFIX@.is_prefix_of(name) {
        text::signed_value(name.skip(scope::SESSION_DIR_PREFIX@.len() as int))
    } else {
        None
    }
}

/// The serial of the session keyring whose scope's directory has a name.
pub fn session_serial(name: &str) -> (r: Option<KeyId>)
    ensures
        match r {
            Some(serial) => session_of(name@) == Some(serial as int),
            None => session_of(name@) is None,
        },
{
    match text::strip_prefix(name, scope::SESSION_DIR_PREFIX) {
        Some(rest) => {
            proof {
                let n = scope::SESSION_DIR_PREFIX@.len() as int;
                assert(name@.skip(n) =~= rest@);
                assert(scope::SESSION_DIR_PREFIX@ =~= name@.subrange(0, n));
            }
            text::signed(rest)
        },
        None => None,
    }
}

/// What is pruned could not have been read: a file that is deleted because its expiry
/// has passed, or because its encryption key is gone, gives no secret.
pub proof fn law_pruned_unreadable(
    file: Vec<u8>,
    set: Seq<char>,
    name: Seq<char>,
    now: u64,
    key: KeyReply,
)
    requires
        is_expired(file@, now) || is_locked(file@, key),
    ensures
        read::secret_read(set, name, FileReply::Bytes(file), now, key) is Err,
{
    if !is_expired(file@, now) {
        assert(keyring::key_needed(set, key) is Err);
    }
}

/// Every file that pruning a keyset deletes is one whose encryption key is gone.
pub proof fn law_prunes_only_locked(scope: Scope, set: Seq<char>, seen: Seq<Sighting>)
    ensures
        forall|k: int|
            0 <= k < delete_steps(scope, set, seen).len() ==> exists|i: int|
                0 <= i < seen.len() && is_doomed(#[trigger] seen[i]) && (
                #[trigger] delete_steps(scope, set, seen)[k]).deed == (Deed::RemoveFile {
                    path: store::key_path(scope, set, seen[i].name@),
                }),
    decreases seen.len(),
{
    if seen.len() > 0 {
        let less = seen.drop_last();
        let front = delete_steps(scope, set, less);
        let all = delete_steps(scope, set, seen);
        law_prunes_only_locked(scope, set, less);
        assert forall|k: int| 0 <= k < all.len() implies exists|i: int|
            0 <= i < seen.len() && is_doomed(#[trigger] seen[i]) && (#[trigger] all[k]).deed == (
            Deed::RemoveFile { path: store::key_path(scope, set, seen[i].name@) }) by {
            if k < front.len() {
                assert(all[k] == front[k]);
                let i = choose|i: int|
                    0 <= i < less.len() && is_doomed(#[trigger] less[i]) && front[k].deed == (
                    Deed::RemoveFile { path: store::key_path(scope, set, less[i].name@) });
                assert(seen[i] == less[i]);
            } else {
                assert(seen[seen.len() - 1] == seen.last());
            }
        }
    }
}

/// What can be read is not pruned.
pub proof fn law_readable_kept(
    file: Vec<u8>,
    set: Seq<char>,
    name: Seq<char>,
    now: u64,
    key: KeyReply,
)
    requires
        read::secret_read(set, name, FileReply::Bytes(file), now, key) is Ok,
    ensures
        !is_expired(file@, now),
        !is_locked(file@, key),
{
    if is_expired(file@, now) || is_locked(file@, key) {
        law_pruned_unreadable(file, set, name, now, key);
    }
}

/// The directory of a session's scope is known again by its name, and that of the
/// user scope is none of a session.
pub proof fn law_session_dir_known(serial: KeyId)
    ensures
        session_of(scope::session_dir(serial)) == Some(serial as int),
        session_of(scope::USER_DIR@) is None,
{
    let name = scope::session_dir(serial);
    let p = scope::SESSION_DIR_PREFIX@;
    let n = p.len() as int;
    text::lemma_signed(serial as int);
    assert(name.skip(n) =~= text::signed_decimal(serial as int));
    assert(p =~= name.subrange(0, n));
    reveal_strlit("user");
    reveal_strlit("session-");
    if p.is_prefix_of(scope::USER_DIR@) {
        assert(p.len() <= scope::USER_DIR@.len());
    }
}

/// A secret file is deleted for its expiry exactly when it has come, and for its key
/// exactly when that is missing, not where looking for it failed; and what is no secret
/// file is never deleted.
pub proof fn law_prunes(file: Seq<u8>, now: u64, key: KeyReply)
    ensures
        vault::is_file(file) ==> (is_expired(file, now) <==> vault::expiry_of(file) <= now),
        vault::is_file(file) ==> (is_locked(file, key) <==> key is Missing),
        !vault::is_file(file) ==> !is_expired(file, now) && !is_locked(file, key),
{
}

/// Every file of a keyset whose encryption key is gone is deleted when it is pruned.
pub proof fn law_prunes_all_locked(scope: Scope, set: Seq<char>, seen: Seq<Sighting>, i: int)
    requires
        0 <= i < seen.len(),
        seen[i].file matches Some(f) && vault::is_file(f@),
        seen[i].key is Missing,
    ensures
        exists|k: int|
            0 <= k < delete_steps(scope, set, seen).len() && (#[trigger] delete_steps(
                scope,
                set,
                seen,
            )[k]).deed == (Deed::RemoveFile { path: store::key_path(scope, set, seen[i].name@) }),
    decreases seen.len(),
{
    let less = seen.drop_last();
    let all = delete_steps(scope, set, seen);
    let front = delete_steps(scope, set, less);
    if i == seen.len() - 1 {
        assert(is_doomed(seen.last()));
        assert(all[all.len() - 1].deed == (Deed::RemoveFile {
            path: store::key_path(scope, set, seen[i].name@),
        }));
    } else {
        assert(less[i] == seen[i]);
        law_prunes_all_locked(scope, set, less, i);
        let k = choose|k: int|
            0 <= k < front.len() && (#[trigger] front[k]).deed == (Deed::RemoveFile {
                path: store::key_path(scope, set, less[i].name@),
            });
        assert(all[k] == front[k]);
    }
}

/// The directory of a keyset is removed last, which only one that is empty can be, and
/// nothing that is deleted is needed to be.
pub proof fn law_prunes_last(scope: Scope, set: Seq<char>, seen: Seq<Sighting>)
    ensures
        prune_stage(scope, set, seen).steps.last().deed == (Deed::RemoveDir {
            path: store::set_path(scope, set),
        }),
        prune_stage(scope, set, seen).steps.drop_last() == delete_steps(scope, set, seen),
        prune_stage(scope, set, seen).undo.len() == 0,
{
    assert(prune_stage(scope, set, seen).steps.drop_last() =~= delete_steps(scope, set, seen));
}

/// A directory is a session's exactly if its name is `session-` and the number of a
/// keyring behind it.
pub proof fn law_session_name(rest: Seq<char>, name: Seq<char>)
    ensures
        session_of("session-"@ + rest) == text::signed_value(rest),
        session_of(name) is Some ==> exists|tail: Seq<char>|
            name == #[trigger] ("session-"@ + tail),
{
    let p = "session-"@;
    let s = p + rest;
    assert(p =~= s.subrange(0, p.len() as int));
    assert(s.skip(p.len() as int) =~= rest);
    if p.is_prefix_of(name) {
        let tail = name.skip(p.len() as int);
        assert(p =~= name.subrange(0, p.len() as int));
        assert(name =~= p + tail);
    }
}

} // verus!
