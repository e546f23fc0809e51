//! Scopes: where a keyset's encryption key lives, and where its files live.
use vstd::prelude::*;
use vstd::string::*;
use crate::errors;
use crate::errors::OsError;
use crate::names;
use crate::sys;
use crate::sys::KeyId;
use crate::text;

verus! {

/// The name of the directory that holds all scopes' directories.
pub const DIR: &'static str = "tempkeys";

/// The directory of the user scope.
pub const USER_DIR: &'static str = "user";

/// What the directories of session scopes begin with.
pub const SESSION_DIR_PREFIX: &'static str = "session-";

/// Which scope(s) a command was asked to use.
#[derive(Clone, Copy, PartialEq, Eq, Structural)]
pub enum Target {
    /// Session scope first when inside a session, then user scope.
    Auto,
    User,
    Session,
}

/// The scopes that the flags `--session` and `--user` select.
pub fn target(session: bool, user: bool) -> (r: Target)
    ensures
        r == (if session {
            Target::Session
        } else if user {
            Target::User
        } else {
            Target::Auto
        }),
{
    if session {
        Target::Session
    } else if user {
        Target::User
    } else {
        Target::Auto
    }
}

/// Where a keyset's encryption key lives, and where its files live.
pub struct Scope {
    pub label: &'static str,
    /// The keyring that holds the encryption keys.
    pub root: KeyId,
    /// The permissions of the encryption keys.
    pub perm: u32,
    /// How messages show the directory that holds all scopes' directories.
    pub base: String,
    /// The scope's directory in it.
    pub dir: String,
}

/// Whether `s` is the user scope.
pub open spec fn is_user(s: Scope, base: Seq<char>) -> bool {
    &&& s.label@ == "user"@
    &&& s.root == sys::USER_KEYRING
    &&& s.perm == sys::PERM_OWNER_ALL
    &&& s.base@ == base
    &&& s.dir@ == USER_DIR@
}

/// The directory of a session's scope.
pub open spec fn session_dir(serial: KeyId) -> Seq<char> {
    SESSION_DIR_PREFIX@ + text::signed_decimal(serial as int)
}

/// Whether `s` is the scope of the session whose keyring has the given serial.
pub open spec fn is_session(s: Scope, base: Seq<char>, serial: KeyId) -> bool {
    &&& s.label@ == "session"@
    &&& s.root == sys::SESSION_KEYRING
    &&& s.perm == sys::PERM_POSSESSOR_READ
    &&& s.base@ == base
    &&& s.dir@ == session_dir(serial)
}

/// What came of looking for a session: the search of the session keyring for the
/// marker and, where that found it, the keyring's serial.
pub enum SessionReply {
    /// The search failed.
    SearchFailed(OsError),
    /// There is no marker.
    Unmarked,
    /// There is one, and the serial could not be had.
    SerialFailed(OsError),
    /// There is one, in the keyring with this serial.
    Serial(KeyId),
}

/// What base directory there is: how messages show it, or why there is none.
pub type Base = Result<String, String>;

impl Scope {
    /// The user scope. Its keys are owner-only: any process of this UID, no one else.
    pub fn user(base: &Base) -> (r: Result<Scope, String>)
        ensures
            user_said(r, *base),
    {
        match base {
            Ok(b) => Ok(
                Scope {
                    label: "user",
                    root: sys::USER_KEYRING,
                    perm: sys::PERM_OWNER_ALL,
                    base: b.as_str().to_owned(),
                    dir: USER_DIR.to_owned(),
                },
            ),
            Err(e) => Err(e.as_str().to_owned()),
        }
    }

    /// The session scope, if the process is inside a session that has the marker.
    /// Anywhere else there is none, which avoids dropping keys into a login's shared
    /// session keyring.
    pub fn try_session(reply: &SessionReply, base: &Base) -> (r: Result<Option<Scope>, String>)
        ensures
            match r {
                Ok(None) => *reply is Unmarked,
                Ok(Some(s)) => *reply is Serial && session_said(Ok(s), *reply, *base),
                Err(e) => !(*reply is Unmarked) && session_said(Err(e), *reply, *base),
            },
    {
        match reply {
            SessionReply::SearchFailed(e) => Err(errors::os_err("searching session keyring", e)),
            SessionReply::Unmarked => Ok(None),
            SessionReply::SerialFailed(e) => Err(errors::os_err("resolving session keyring", e)),
            SessionReply::Serial(serial) => match base {
                Ok(b) => Ok(
                    Some(
                        Scope {
                            label: "session",
                            root: sys::SESSION_KEYRING,
                            perm: sys::PERM_POSSESSOR_READ,
                            base: b.as_str().to_owned(),
                            dir: text::join2(
                                SESSION_DIR_PREFIX,
                                text::signed_text(*serial).as_str(),
                            ),
                        },
                    ),
                ),
                Err(e) => Err(e.as_str().to_owned()),
            },
        }
    }

    /// The session scope; outside a session there is an error.
    pub fn session(reply: &SessionReply, base: &Base) -> (r: Result<Scope, String>)
        ensures
            session_said(r, *reply, *base),
    {
        match Scope::try_session(reply, base) {
            Ok(Some(s)) => Ok(s),
            Ok(None) => Err(
                "not inside a tempkeys session (start one with `tempkeys session`)".to_owned(),
            ),
            Err(e) => Err(e),
        }
    }

    /// The single scope a write (load, set, clear) goes to.
    pub fn for_write(target: Target, reply: &SessionReply, base: &Base) -> (r: Result<
        Scope,
        String,
    >)
        ensures
            write_said(r, target, *reply, *base),
    {
        match target {
            Target::User => Scope::user(base),
            Target::Session => Scope::session(reply, base),
            Target::Auto => match Scope::try_session(reply, base) {
                Ok(Some(session)) => Ok(session),
                Ok(None) => Scope::user(base),
                Err(e) => Err(e),
            },
        }
    }

    /// The scopes a read (get, run, list) may use, in lookup order: first the one
    /// that a write goes to and then, where that is the session scope and was not
    /// asked for, the user scope.
    pub fn for_read(target: Target, reply: &SessionReply, base: &Base) -> (r: Result<
        Vec<Scope>,
        String,
    >)
        ensures
            match r {
                Ok(scopes) => {
                    &&& scopes@.len() > 0
                    &&& write_said(Ok(scopes@[0]), target, *reply, *base)
                    &&& if target is Auto && *reply is Serial {
                        scopes@.len() == 2 && user_said(Ok(scopes@[1]), *base)
                    } else {
                        scopes@.len() == 1
                    }
                },
                Err(e) => write_said(Err(e), target, *reply, *base),
            },
    {
        let mut scopes: Vec<Scope> = Vec::new();
        match target {
            Target::User => match Scope::user(base) {
                Ok(s) => {
                    scopes.push(s);
                },
                Err(e) => {
                    return Err(e);
                },
            },
            Target::Session => match Scope::session(reply, base) {
                Ok(s) => {
                    scopes.push(s);
                },
                Err(e) => {
                    return Err(e);
                },
            },
            Target::Auto => {
                match Scope::try_session(reply, base) {
                    Ok(Some(s)) => {
                        scopes.push(s);
                    },
                    Ok(None) => {},
                    Err(e) => {
                        return Err(e);
                    },
                }
                match Scope::user(base) {
                    Ok(s) => {
                        scopes.push(s);
                    },
                    Err(e) => {
                        return Err(e);
                    },
                }
            },
        }
        Ok(scopes)
    }
}

/// What comes of asking for the user scope.
pub open spec fn user_said(r: Result<Scope, String>, base: Base) -> bool {
    match base {
        Ok(b) => r matches Ok(s) && is_user(s, b@),
        Err(e) => r matches Err(m) && m@ == e@,
    }
}

/// What comes of asking for the session scope.
pub open spec fn session_said(r: Result<Scope, String>, reply: SessionReply, base: Base) -> bool {
    match reply {
        SessionReply::SearchFailed(e) => r matches Err(m) && m@ == errors::os_message(
            "searching session keyring"@,
            e,
        ),
        SessionReply::Unmarked => r matches Err(m) && m@
            == "not inside a tempkeys session (start one with `tempkeys session`)"@,
        SessionReply::SerialFailed(e) => r matches Err(m) && m@ == errors::os_message(
            "resolving session keyring"@,
            e,
        ),
        SessionReply::Serial(serial) => match base {
            Ok(b) => r matches Ok(s) && is_session(s, b@, serial),
            Err(e) => r matches Err(m) && m@ == e@,
        },
    }
}

/// What comes of asking for the scope that a write goes to.
pub open spec fn write_said(
    r: Result<Scope, String>,
    target: Target,
    reply: SessionReply,
    base: Base,
) -> bool {
    match target {
        Target::User => user_said(r, base),
        Target::Session => session_said(r, reply, base),
        Target::Auto => if reply is Unmarked {
            user_said(r, base)
        } else {
            session_said(r, reply, base)
        },
    }
}

/// The first scope that has keyset `set`; if none does, the first scope, so the
/// caller reports "no such keyset". Fallback is per keyset: once a scope has the
/// keyset it is used whole, and a key missing from it is not taken from another.
/// `present` says of each scope whether it has the keyset.
pub fn pick<'a>(scopes: &'a Vec<Scope>, set: &str, present: &Vec<bool>) -> (r: Result<
    &'a Scope,
    String,
>)
    requires
        present@.len() == scopes@.len(),
    ensures
        !names::is_set_name(set@) ==> (r matches Err(e) && e@ == "invalid keyset name "@
            + text::debug_text(set@)),
        names::is_set_name(set@) && scopes@.len() == 0 ==> (r matches Err(e) && e@
            == "no scope available"@),
        names::is_set_name(set@) && scopes@.len() > 0 ==> exists|k: int|
            0 <= k < scopes@.len() && r == Ok::<&Scope, String>(#[trigger] &scopes@[k])
                && picked(present@, k),
{
    match names::check_set(set) {
        Ok(_) => {},
        Err(e) => {
            return Err(e);
        },
    }
    if scopes.len() == 0 {
        return Err("no scope available".to_owned());
    }
    let mut i: usize = 0;
    while i < scopes.len()
        invariant
            i <= scopes@.len() == present@.len(),
            scopes@.len() > 0,
            names::is_set_name(set@),
            forall|j: int| 0 <= j < i ==> !present@[j],
        decreases scopes@.len() - i,
    {
        if present[i] {
            assert(picked(present@, i as int));
            return Ok(&scopes[i]);
        }
        i = i + 1;
    }
    assert(picked(present@, 0));
    Ok(&scopes[0])
}

/// Whether `k` is the place of the first that is present or, where none is, the
/// first place.
pub open spec fn picked(present: Seq<bool>, k: int) -> bool {
    ||| present[k] && forall|j: int| 0 <= j < k ==> !present[j]
    ||| k == 0 && forall|j: int| 0 <= j < present.len() ==> !present[j]
}

/// What is known of the directory that `$XDG_RUNTIME_DIR` names.
pub struct RuntimeFacts {
    pub absolute: bool,
    pub directory: bool,
    pub owner: u32,
    pub mode: u32,
}

/// Whether `$XDG_RUNTIME_DIR` is usable, as the XDG base directories ask:
/// absolute, a directory that the user owns, and closed to everyone else. There
/// are no facts where the variable is empty or not set, or the directory missing.
pub fn runtime_dir(facts: Option<RuntimeFacts>, user: u32) -> (usable: bool)
    ensures
        usable == match facts {
            Some(f) => f.absolute && f.directory && f.owner == user && f.mode & 0o077 == 0,
            None => false,
        },
{
    match facts {
        Some(f) => f.absolute && f.directory && f.owner == user && f.mode & 0o077 == 0,
        None => false,
    }
}

/// The directory that the base directory is in.
#[derive(Clone, Copy, PartialEq, Eq, Structural)]
pub enum Root {
    /// `$XDG_RUNTIME_DIR`
    Runtime,
    /// `$XDG_CACHE_HOME`
    Cache,
    /// `~/.cache`
    HomeCache,
}

/// Where the files are kept, following the XDG base directories: the runtime
/// directory (tmpfs, per login), else `$XDG_CACHE_HOME`, else `~/.cache`. The
/// latter two are usable where the variable holds an absolute path.
pub fn base_dir(runtime: bool, cache: bool, home: bool) -> (r: Result<Root, String>)
    ensures
        runtime ==> r == Ok::<Root, String>(Root::Runtime),
        !runtime && cache ==> r == Ok::<Root, String>(Root::Cache),
        !runtime && !cache && home ==> r == Ok::<Root, String>(Root::HomeCache),
        !runtime && !cache && !home ==> (r matches Err(e) && e@
            == "cannot locate a directory: XDG_RUNTIME_DIR, XDG_CACHE_HOME and HOME are all unusable"@),
{
    if runtime {
        Ok(Root::Runtime)
    } else if cache {
        Ok(Root::Cache)
    } else if home {
        Ok(Root::HomeCache)
    } else {
        Err(
            "cannot locate a directory: XDG_RUNTIME_DIR, XDG_CACHE_HOME and HOME are all unusable".to_owned(),
        )
    }
}

/// A path below a directory.
pub open spec fn under(dir: Seq<char>, name: Seq<char>) -> Seq<char> {
    dir + "/"@ + name
}

/// A path below a directory.
pub fn path(dir: &str, name: &str) -> (r: String)
    ensures
        r@ == under(dir@, name@),
{
    text::join3(dir, "/", name)
}

/// The two scopes share neither a keyring nor a directory, so that the same keyset
/// name in both never mixes.
pub proof fn law_scopes_apart(a: Scope, b: Scope, base: Seq<char>, serial: KeyId)
    requires
        is_user(a, base),
        is_session(b, base, serial),
    ensures
        a.root != b.root,
        a.dir@ != b.dir@,
        a.label@ != b.label@,
{
    reveal_strlit("user");
    reveal_strlit("session");
    reveal_strlit("session-");
    assert(a.dir@[0] == 'u');
    assert(b.dir@[0] == 's');
    assert(a.label@[0] == 'u');
    assert(b.label@[0] == 's');
}

/// Which scope a command writes to: outside a session, and with `--user` anywhere, the
/// user scope; inside one, and with `--session`, the session's own; and `--session`
/// outside a session is refused.
pub proof fn law_write_scope(
    s: Scope,
    base: String,
    serial: KeyId,
    reply: SessionReply,
    why: String,
)
    ensures
        write_said(Ok(s), Target::User, reply, Ok(base)) <==> is_user(s, base@),
        write_said(Ok(s), Target::Auto, SessionReply::Unmarked, Ok(base)) <==> is_user(s, base@),
        write_said(Ok(s), Target::Auto, SessionReply::Serial(serial), Ok(base)) <==> is_session(
            s,
            base@,
            serial,
        ),
        write_said(Ok(s), Target::Session, SessionReply::Serial(serial), Ok(base)) <==> is_session(
            s,
            base@,
            serial,
        ),
        !write_said(Ok(s), Target::Session, SessionReply::Unmarked, Ok(base)),
        !write_said(Err(why), Target::User, reply, Ok(base)),
        !write_said(Err(why), Target::Auto, SessionReply::Unmarked, Ok(base)),
        !write_said(Err(why), Target::Auto, SessionReply::Serial(serial), Ok(base)),
        !write_said(Err(why), Target::Session, SessionReply::Serial(serial), Ok(base)),
        reply is SearchFailed || reply is SerialFailed ==> !write_said(
            Ok(s),
            Target::Auto,
            reply,
            Ok(base),
        ) && !write_said(Ok(s), Target::Session, reply, Ok(base)),
{
}

/// What the scopes are: the user scope keeps its keys in the user keyring, all for the
/// owner, and its files in `user`; a session's keeps them in the session keyring, to be
/// read by its possessor alone, and its files in `session-` and the keyring's number.
pub proof fn law_scopes(s: Scope, base: Seq<char>, serial: KeyId)
    ensures
        is_user(s, base) ==> s.label@ == "user"@ && s.root == -4 && s.perm == 0x003f_0000
            && s.dir@ == "user"@ && s.base@ == base,
        is_session(s, base, serial) ==> s.label@ == "session"@ && s.root == -3 && s.perm
            == 0x0b00_0000 && s.dir@ == "session-"@ + text::signed_decimal(serial as int)
            && s.base@ == base,
        serial >= 0 ==> session_dir(serial) == "session-"@ + text::decimal(serial as nat),
        DIR@ == "tempkeys"@,
{
}

/// The scope that is picked is the first that has the keyset and, where none has it, the
/// first of all.
pub proof fn law_picked(present: Seq<bool>, k: int)
    requires
        0 <= k < present.len(),
        picked(present, k),
    ensures
        forall|j: int| 0 <= j < k ==> !#[trigger] present[j],
        !present[k] ==> k == 0 && forall|j: int| 0 <= j < present.len() ==> !#[trigger] present[j],
        (exists|j: int| 0 <= j < present.len() && #[trigger] present[j]) ==> present[k],
{
}

} // verus!
