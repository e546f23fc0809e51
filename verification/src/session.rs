//! Starting a command inside a fresh, private session keyring.
use vstd::prelude::*;
use vstd::string::*;
use crate::errors;
use crate::errors::OsError;
use crate::names;
use crate::script;
use crate::script::{Blame, Deed, Fault, Op, Stage, StageModel};
use crate::store;
use crate::sys;
use crate::sys::{Call, KeyId};
use crate::text;
use crate::ttl;

verus! {

/// Refuses to start a session that would take its keyset from standard input and
/// leave none for a shell.
pub fn check_start(piped: bool, command: &Vec<String>) -> (r: Result<(), String>)
    ensures
        match r {
            Ok(_) => !piped || command@.len() > 0,
            Err(e) => piped && command@.len() == 0 && e@
                == "stdin is piped into the keyset, so a COMMAND is required"@,
        },
{
    if piped && command.len() == 0 {
        Err("stdin is piped into the keyset, so a COMMAND is required".to_owned())
    } else {
        Ok(())
    }
}

/// Sets the permissions of one key or keyring.
pub open spec fn perm_stage(id: KeyId, perm: u32, what: Seq<char>) -> StageModel {
    StageModel {
        steps: seq![store::plain(Deed::SetPerm { id, perm }, Fault::Keyring(what))],
        refusal: None,
        undo: Seq::empty(),
    }
}

/// The script that sets the permissions of one key or keyring.
fn set_perm(id: KeyId, perm: u32, what: &str) -> (r: Vec<Stage>)
    ensures
        script::stage_models(r@) == seq![perm_stage(id, perm, what@)],
{
    let op = Op::SetPerm { id, perm };
    store::lone_step(op, Blame::Keyring(what.to_owned()))
}

/// The script that drops the default owner/group/other grants of the session keyring,
/// before any key goes in.
pub fn open_ring(ring: KeyId) -> (r: Vec<Stage>)
    ensures
        script::stage_models(r@) == seq![
            perm_stage(ring, sys::PERM_POSSESSOR_ALL, "restricting session keyring"@),
        ],
{
    set_perm(ring, sys::PERM_POSSESSOR_ALL, "restricting session keyring")
}

/// The call that marks the session keyring.
pub fn add_marker(ring: KeyId) -> (r: Result<Call, OsError>)
    ensures
        r matches Ok(Call::AddKey { kind, desc, payload, ring: into }) && sys::is_cstr(
            kind@,
            "user"@,
        ) && sys::is_cstr(desc@, names::SESSION_MARKER@) && payload@ == seq![0x31u8] && into
            == ring,
{
    proof {
        reveal_strlit("tempkeys:session");
        let m = names::SESSION_MARKER@;
        if m.contains('\0') {
            let i = choose|i: int| 0 <= i < m.len() && m[i] == '\0';
            assert(m[0] == 't' && m[1] == 'e' && m[2] == 'm' && m[3] == 'p' && m[4] == 'k' && m[5]
                == 'e' && m[6] == 'y' && m[7] == 's' && m[8] == ':' && m[9] == 's' && m[10] == 'e'
                && m[11] == 's' && m[12] == 's' && m[13] == 'i' && m[14] == 'o' && m[15] == 'n');
            assert(false);
        }
    }
    let payload: [u8; 1] = [0x31];
    assert(payload@ =~= seq![0x31u8]);
    sys::add_user_key(names::SESSION_MARKER, payload.as_slice(), ring)
}

/// The script that restricts the marker.
pub fn protect_marker(marker: KeyId) -> (r: Vec<Stage>)
    ensures
        script::stage_models(r@) == seq![
            perm_stage(marker, sys::PERM_POSSESSOR_READ, "marking session"@),
        ],
{
    set_perm(marker, sys::PERM_POSSESSOR_READ, "marking session")
}

/// The script that closes the session keyring, once it is populated: members may add
/// and remove keys but never change permissions.
pub fn close_ring(ring: KeyId) -> (r: Vec<Stage>)
    ensures
        script::stage_models(r@) == seq![
            perm_stage(ring, sys::PERM_POSSESSOR_NO_SETATTR, "restricting session keyring"@),
        ],
{
    set_perm(ring, sys::PERM_POSSESSOR_NO_SETATTR, "restricting session keyring")
}

/// How far the start of a session is.
#[derive(Clone, Copy, PartialEq, Eq, Structural)]
pub enum Start {
    /// A fresh session keyring is to be joined.
    Joining,
    /// Its grants to anyone but its possessor are to be dropped.
    Opening { ring: KeyId },
    /// It is to be marked.
    Marking { ring: KeyId },
    /// The marker is to be restricted.
    Protecting { ring: KeyId, marker: KeyId },
    /// Keysets are to be pruned, and one to be stored if it was given.
    Populating { ring: KeyId },
    /// The keyring is to be closed.
    Closing { ring: KeyId },
    /// The command is to be run.
    Ready,
}

/// What came of the last step.
pub enum Event {
    /// A call was answered.
    Called(Result<i64, OsError>),
    /// A script was run, or keysets were pruned and stored.
    Ran(Result<(), String>),
}

/// Whether an event can come of a step: joining and marking are calls.
pub open spec fn answers(state: Start, event: Event) -> bool {
    match state {
        Start::Joining | Start::Marking { .. } => event is Called,
        Start::Ready => false,
        _ => event is Ran,
    }
}

/// The step after one that went well. `id` is what a call answered.
pub open spec fn following(state: Start, id: KeyId) -> Start {
    match state {
        Start::Joining => Start::Opening { ring: id },
        Start::Opening { ring } => Start::Marking { ring },
        Start::Marking { ring } => Start::Protecting { ring, marker: id },
        Start::Protecting { ring, marker } => Start::Populating { ring },
        Start::Populating { ring } => Start::Closing { ring },
        Start::Closing { ring } => Start::Ready,
        Start::Ready => Start::Ready,
    }
}

/// The step that follows, or why the session cannot be started.
pub open spec fn advanced(state: Start, event: Event) -> Result<Start, Seq<char>> {
    match event {
        Event::Called(Ok(id)) => Ok(following(state, id as i32)),
        Event::Called(Err(e)) => Err(
            errors::os_message(
                if state is Joining {
                    "joining session keyring"@
                } else {
                    "marking session"@
                },
                e,
            ),
        ),
        Event::Ran(Ok(_)) => Ok(following(state, 0)),
        Event::Ran(Err(e)) => Err(e@),
    }
}

/// Goes on to the step that follows.
pub fn advance(state: Start, event: Event) -> (r: Result<Start, String>)
    requires
        answers(state, event),
    ensures
        match r {
            Ok(next) => advanced(state, event) == Ok::<Start, Seq<char>>(next),
            Err(e) => advanced(state, event) == Err::<Start, Seq<char>>(e@),
        },
{
    let id: KeyId = match event {
        Event::Called(Ok(id)) => sys::key_of(id),
        Event::Called(Err(e)) => {
            return match state {
                Start::Joining => Err(errors::os_err("joining session keyring", &e)),
                _ => Err(errors::os_err("marking session", &e)),
            };
        },
        Event::Ran(Ok(_)) => 0,
        Event::Ran(Err(e)) => {
            return Err(e);
        },
    };
    Ok(
        match state {
            Start::Joining => Start::Opening { ring: id },
            Start::Opening { ring } => Start::Marking { ring },
            Start::Marking { ring } => Start::Protecting { ring, marker: id },
            Start::Protecting { ring, marker } => Start::Populating { ring },
            Start::Populating { ring } => Start::Closing { ring },
            Start::Closing { ring } => Start::Ready,
            Start::Ready => Start::Ready,
        },
    )
}

/// How far the start of a session is after events that all went well.
pub open spec fn reached(events: Seq<Event>) -> Result<Start, Seq<char>>
    decreases events.len(),
{
    if events.len() == 0 {
        Ok(Start::Joining)
    } else {
        match reached(events.drop_last()) {
            Ok(state) => advanced(state, events.last()),
            Err(e) => Err(e),
        }
    }
}

/// The number of steps before a step.
pub open spec fn rank(state: Start) -> nat {
    match state {
        Start::Joining => 0,
        Start::Opening { .. } => 1,
        Start::Marking { .. } => 2,
        Start::Protecting { .. } => 3,
        Start::Populating { .. } => 4,
        Start::Closing { .. } => 5,
        Start::Ready => 6,
    }
}

/// Whether a step went well.
pub open spec fn went_well(event: Event) -> bool {
    event matches Event::Called(Ok(_)) || event matches Event::Ran(Ok(_))
}

/// Whether each event is one that can come of its step.
pub open spec fn well_answered(events: Seq<Event>) -> bool {
    forall|k: int|
        0 <= k < events.len() ==> (reached(events.take(k)) matches Ok(state) ==> answers(
            state,
            #[trigger] events[k],
        ))
}

/// The keyring that a step is about.
pub open spec fn ring_of(state: Start) -> Option<KeyId> {
    match state {
        Start::Opening { ring } => Some(ring),
        Start::Marking { ring } => Some(ring),
        Start::Protecting { ring, .. } => Some(ring),
        Start::Populating { ring } => Some(ring),
        Start::Closing { ring } => Some(ring),
        _ => None,
    }
}

/// The steps come in their order, none is left out, and all of them are about the
/// keyring that was joined. So no key goes into it, neither the marker nor one of a
/// keyset, before its grants to anyone but its possessor were dropped, and the command
/// is not run before it was closed.
pub proof fn law_start_in_order(events: Seq<Event>)
    requires
        well_answered(events),
    ensures
        reached(events) matches Ok(state) ==> {
            &&& rank(state) == events.len()
            &&& forall|k: int| 0 <= k < events.len() ==> went_well(#[trigger] events[k])
            &&& 0 < rank(state) < 6 ==> (events[0] matches Event::Called(Ok(id)) && ring_of(state)
                == Some(id as i32))
        },
    decreases events.len(),
{
    if events.len() > 0 {
        let less = events.drop_last();
        let n = less.len() as int;
        assert(less =~= events.take(n));
        assert forall|k: int| 0 <= k < less.len() implies (reached(less.take(k)) matches Ok(
            state,
        ) ==> answers(state, #[trigger] less[k])) by {
            assert(less.take(k) =~= events.take(k));
            assert(less[k] == events[k]);
        }
        law_start_in_order(less);
        assert(events[n] == events.last());
        if let Ok(state) = reached(events) {
            assert forall|k: int| 0 <= k < events.len() implies went_well(#[trigger] events[k]) by {
                if k < n {
                    assert(less[k] == events[k]);
                }
            }
        }
    }
}

/// What loading a keyset into a new session tells.
pub fn loaded_message(count: usize, set: &str, ttl: Option<u32>) -> (r: String)
    ensures
        r@ == "loaded "@ + text::decimal(count as nat) + " keys into session keyset "@
            + text::debug_text(set@) + ", "@ + ttl::expiry_text(ttl),
{
    let mut r = text::join4(
        "loaded ",
        text::decimal_text(count as u64).as_str(),
        " keys into session keyset ",
        text::quoted(set).as_str(),
    );
    r.append(", ");
    r.append(ttl::fmt_expiry(ttl).as_str());
    r
}

/// The command that runs in the session, and its arguments: the one given or, where
/// none is, the user's shell or `/bin/sh`.
pub fn argv(command: &Vec<String>, shell: Option<String>) -> (r: Vec<String>)
    ensures
        r@.len() > 0,
        command@.len() > 0 ==> names::texts(r@) == names::texts(command@),
        command@.len() == 0 ==> names::texts(r@) == seq![
            match shell {
                Some(s) => s@,
                None => "/bin/sh"@,
            },
        ],
{
    let mut r: Vec<String> = Vec::new();
    if command.len() == 0 {
        let shell = match shell {
            Some(s) => s,
            None => "/bin/sh".to_owned(),
        };
        let ghost text = shell@;
        r.push(shell);
        assert(names::texts(r@) =~= seq![text]);
        return r;
    }
    let mut i: usize = 0;
    while i < command.len()
        invariant
            i <= command@.len(),
            r@.len() == i,
            forall|k: int| 0 <= k < i ==> (#[trigger] r@[k])@ == command@[k]@,
        decreases command@.len() - i,
    {
        r.push(command[i].as_str().to_owned());
        i = i + 1;
    }
    assert(names::texts(r@) =~= names::texts(command@));
    r
}

/// What the permissions grant. In each word the possessor's rights are the first
/// byte, the owner's the second, and those of the group and of others the last two;
/// the bit 0x20 of a byte is the right to change permissions, 0x04 the right to
/// write and 0x10 the right to link.
///
/// A session's keyring and keys grant nothing to anyone but their possessor; once
/// populated, the keyring lets no one change permissions, and its keys can only be
/// viewed, read and searched for. The keys of the user scope grant everything to the
/// owner and nothing to anyone else.
pub proof fn law_permissions()
    ensures
        sys::PERM_POSSESSOR_ALL & 0x00ff_ffff == 0,
        sys::PERM_POSSESSOR_NO_SETATTR & 0x00ff_ffff == 0,
        sys::PERM_POSSESSOR_READ & 0x00ff_ffff == 0,
        sys::PERM_POSSESSOR_NO_SETATTR & 0x2000_0000 == 0,
        sys::PERM_POSSESSOR_READ & 0x3400_0000 == 0,
        sys::PERM_OWNER_ALL & 0xff00_ffff == 0,
        sys::PERM_OWNER_ALL & 0x00ff_0000 == 0x003f_0000,
{
    assert(0x3f00_0000u32 & 0x00ff_ffff == 0) by (bit_vector);
    assert(0x1f00_0000u32 & 0x00ff_ffff == 0) by (bit_vector);
    assert(0x0b00_0000u32 & 0x00ff_ffff == 0) by (bit_vector);
    assert(0x1f00_0000u32 & 0x2000_0000 == 0) by (bit_vector);
    assert(0x0b00_0000u32 & 0x3400_0000 == 0) by (bit_vector);
    assert(0x003f_0000u32 & 0xff00_ffff == 0) by (bit_vector);
    assert(0x003f_0000u32 & 0x00ff_0000 == 0x003f_0000) by (bit_vector);
}

/// What each step of a session's start is about: the keyring is the one that was joined,
/// and the marker that is restricted is the one that was added; and a step that failed is
/// the last.
pub proof fn law_start_steps(ring: KeyId, marker: KeyId, id: i64, e: OsError, why: String)
    ensures
        advanced(Start::Joining, Event::Called(Ok(id))) == Ok::<Start, Seq<char>>(
            Start::Opening { ring: id as i32 },
        ),
        advanced(Start::Opening { ring }, Event::Ran(Ok(()))) == Ok::<Start, Seq<char>>(
            Start::Marking { ring },
        ),
        advanced(Start::Marking { ring }, Event::Called(Ok(id))) == Ok::<Start, Seq<char>>(
            Start::Protecting { ring, marker: id as i32 },
        ),
        advanced(Start::Protecting { ring, marker }, Event::Ran(Ok(()))) == Ok::<Start, Seq<char>>(
            Start::Populating { ring },
        ),
        advanced(Start::Populating { ring }, Event::Ran(Ok(()))) == Ok::<Start, Seq<char>>(
            Start::Closing { ring },
        ),
        advanced(Start::Closing { ring }, Event::Ran(Ok(()))) == Ok::<Start, Seq<char>>(
            Start::Ready,
        ),
        forall|state: Start|
            #[trigger] advanced(state, Event::Ran(Err(why))) == Err::<Start, Seq<char>>(why@),
        forall|state: Start| (#[trigger] advanced(state, Event::Called(Err(e)))) is Err,
{
}

/// Setting permissions sets exactly those, on exactly that key or keyring, and the session
/// is not started where that fails.
pub proof fn law_perm_stage(id: KeyId, perm: u32, what: Seq<char>)
    ensures
        perm_stage(id, perm, what).steps.len() == 1,
        perm_stage(id, perm, what).steps[0].deed == (Deed::SetPerm { id, perm }),
        perm_stage(id, perm, what).steps[0].guard is None,
        !(perm_stage(id, perm, what).steps[0].fault is Ignored),
        sys::PERM_POSSESSOR_ALL == 0x3f00_0000,
        sys::PERM_POSSESSOR_NO_SETATTR == 0x1f00_0000,
        sys::PERM_POSSESSOR_READ == 0x0b00_0000,
        sys::PERM_OWNER_ALL == 0x003f_0000,
{
}

} // verus!
