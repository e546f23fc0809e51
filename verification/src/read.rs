//! Reading one secret back.
use vstd::prelude::*;
use vstd::string::*;
use crate::errors;
use crate::errors::OsError;
use crate::keyring;
use crate::keyring::KeyReply;
use crate::names;
use crate::parse;
use crate::scope::Scope;
use crate::seal;
use crate::secret::Secret;
use crate::store;
use crate::sys::Call;
use crate::text;
use crate::vault;
use crate::vault::{Generation, Header};

verus! {

/// A secret that is to be read: the names of its keyset and its key.
pub struct Wanted {
    set: String,
    name: String,
}

impl Wanted {
    #[verifier::type_invariant]
    spec fn inv(self) -> bool {
        names::is_set_name(self.set@) && parse::is_name(self.name@)
    }

    /// The name of the keyset.
    pub closed spec fn set(self) -> Seq<char> {
        self.set@
    }

    /// The name of the key.
    pub closed spec fn name(self) -> Seq<char> {
        self.name@
    }

    /// A secret that is to be read. Names under which none can be are refused.
    pub fn new(set: &str, name: &str) -> (r: Result<Wanted, String>)
        ensures
            match r {
                Ok(w) => {
                    &&& names::is_set_name(set@)
                    &&& parse::is_name(name@)
                    &&& w.set() == set@
                    &&& w.name() == name@
                },
                Err(e) => if !names::is_set_name(set@) {
                    e@ == "invalid keyset name "@ + text::debug_text(set@)
                } else {
                    !parse::is_name(name@) && e@ == "invalid key name "@ + text::debug_text(name@)
                },
            },
    {
        match names::check_set(set) {
            Ok(_) => {},
            Err(e) => {
                return Err(e);
            },
        }
        if parse::valid_name(name) {
            Ok(Wanted { set: set.to_owned(), name: name.to_owned() })
        } else {
            Err(text::join2("invalid key name ", text::quoted(name).as_str()))
        }
    }

    /// The directory of the keyset.
    pub fn dir(&self, scope: &Scope) -> (r: String)
        ensures
            r@ == store::set_path(*scope, self.set()),
    {
        store::set_dir(scope, self.set.as_str())
    }

    /// The file of the secret.
    pub fn file(&self, scope: &Scope) -> (r: String)
        ensures
            r@ == store::key_path(*scope, self.set(), self.name()),
    {
        store::key_file(scope, self.set.as_str(), self.name.as_str())
    }

    /// The file in which the secret is, if it is there and has not expired.
    pub fn found(self, reply: FileReply, now: u64) -> (r: Result<Sealed, String>)
        ensures
            match r {
                Ok(s) => {
                    &&& file_found(self.set(), self.name(), reply, now) == Ok::<
                        Seq<u8>,
                        Seq<char>,
                    >(s.file())
                    &&& s.set() == self.set()
                    &&& s.name() == self.name()
                    &&& vault::expiry_of(s.file()) > now
                },
                Err(e) => file_found(self.set(), self.name(), reply, now) == Err::<
                    Seq<u8>,
                    Seq<char>,
                >(e@),
            },
    {
        proof {
            use_type_invariant(&self);
        }
        let Wanted { set, name } = self;
        let file = match reply {
            FileReply::NoKeyset => {
                return Err(
                    text::join3(
                        "no keyset ",
                        text::quoted(set.as_str()).as_str(),
                        " (never loaded, expired, or cleared)",
                    ),
                );
            },
            FileReply::NotFound => {
                return Err(
                    text::join4(
                        "no key ",
                        text::quoted(name.as_str()).as_str(),
                        " in keyset ",
                        text::quoted(set.as_str()).as_str(),
                    ),
                );
            },
            FileReply::Failed(e) => {
                return Err(errors::io_err("reading secret file", &e));
            },
            FileReply::Bytes(file) => file,
        };
        match vault::parse_header(file.as_slice()) {
            Ok(header) => if header.expiry <= now {
                Err(text::join3("keyset ", text::quoted(set.as_str()).as_str(), " has expired"))
            } else {
                Ok(Sealed { set, name, file, generation: header.generation })
            },
            Err(e) => Err(e),
        }
    }
}

/// What came of looking for a secret's file.
pub enum FileReply {
    /// The keyset has no directory.
    NoKeyset,
    /// The keyset has no such file.
    NotFound,
    Failed(OsError),
    Bytes(Vec<u8>),
}

/// The file in which a secret is, if it is there and has not expired.
pub open spec fn file_found(
    set: Seq<char>,
    name: Seq<char>,
    reply: FileReply,
    now: u64,
) -> Result<Seq<u8>, Seq<char>> {
    match reply {
        FileReply::NoKeyset => Err(
            "no keyset "@ + text::debug_text(set) + " (never loaded, expired, or cleared)"@,
        ),
        FileReply::NotFound => Err(
            "no key "@ + text::debug_text(name) + " in keyset "@ + text::debug_text(set),
        ),
        FileReply::Failed(e) => Err(errors::io_message("reading secret file"@, e)),
        FileReply::Bytes(file) => if !vault::is_file(file@) {
            Err("not a tempkeys secret file"@)
        } else if vault::expiry_of(file@) <= now {
            Err("keyset "@ + text::debug_text(set) + " has expired"@)
        } else {
            Ok(file@)
        },
    }
}

/// A secret's file, which has not expired.
pub struct Sealed {
    set: String,
    name: String,
    file: Vec<u8>,
    generation: Generation,
}

/// The secret that a file holds, with the key that was found for it.
pub open spec fn unsealed(
    set: Seq<char>,
    name: Seq<char>,
    file: Seq<u8>,
    key: KeyReply,
) -> Result<Seq<u8>, Seq<char>> {
    match keyring::key_needed(set, key) {
        Ok(k) => vault::decrypted(k, file, set, name),
        Err(e) => Err(e),
    }
}

/// The secret that is read: with what came of looking for its file, the time, and
/// what came of looking for its encryption key.
pub open spec fn secret_read(
    set: Seq<char>,
    name: Seq<char>,
    reply: FileReply,
    now: u64,
    key: KeyReply,
) -> Result<Seq<u8>, Seq<char>> {
    match file_found(set, name, reply, now) {
        Ok(file) => unsealed(set, name, file, key),
        Err(e) => Err(e),
    }
}

impl Sealed {
    #[verifier::type_invariant]
    spec fn inv(self) -> bool {
        &&& names::is_set_name(self.set@)
        &&& vault::is_file(self.file@)
        &&& self.generation@ == vault::generation_of(self.file@)
    }

    /// The name of the keyset.
    pub closed spec fn set(self) -> Seq<char> {
        self.set@
    }

    /// The name of the key.
    pub closed spec fn name(self) -> Seq<char> {
        self.name@
    }

    /// The bytes of the file.
    pub closed spec fn file(self) -> Seq<u8> {
        self.file@
    }

    /// The call that searches for the encryption key of the file.
    pub fn search(&self, scope: &Scope) -> (r: Result<Call, OsError>)
        ensures
            r is Ok,
            keyring::searches(r, *scope, self.set(), vault::generation_of(self.file())),
    {
        proof {
            use_type_invariant(self);
            names::lemma_description_plain(self.set@, self.generation@);
        }
        keyring::key_search(scope, self.set.as_str(), &self.generation)
    }

    /// Whether the file can be opened, or is refused, without the key stream running
    /// out.
    pub fn openable(&self) -> (r: bool)
        ensures
            r == !vault::overruns(self.file().len() - 68),
    {
        vault::openable(self.file.len())
    }

    /// Decrypts the secret with the key that was found for it.
    pub fn read_secret(&self, key: KeyReply) -> (r: Result<Secret, String>)
        requires
            !vault::overruns(self.file().len() - 68),
        ensures
            match r {
                Ok(secret) => unsealed(self.set(), self.name(), self.file(), key) == Ok::<
                    Seq<u8>,
                    Seq<char>,
                >(secret@),
                Err(e) => unsealed(self.set(), self.name(), self.file(), key) == Err::<
                    Seq<u8>,
                    Seq<char>,
                >(e@),
            },
    {
        match keyring::need_key(self.set.as_str(), key) {
            Ok(k) => vault::decrypt(
                k.0.as_slice(),
                self.file.as_slice(),
                self.set.as_str(),
                self.name.as_str(),
            ),
            Err(e) => Err(e),
        }
    }
}

/// What is printed of a secret: its bytes exactly, and a line feed on a terminal.
pub fn printed(secret: Secret, terminal: bool) -> (r: Secret)
    ensures
        r@ == if terminal {
            secret@.push(10)
        } else {
            secret@
        },
{
    if !terminal {
        return secret;
    }
    // A buffer of the full size from the start, so that none is left behind unwiped.
    let mut r = Secret(Vec::with_capacity(secret.0.len().saturating_add(1)));
    r.0.extend_from_slice(secret.0.as_slice());
    r.0.push(10);
    assert(r@ =~= secret@.push(10));
    r
}

/// What was stored is what is read: a file that holds an entry gives its value back,
/// as long as it has not expired and its encryption key is there.
pub proof fn law_read_back(
    key: Secret,
    header: Header,
    set: Seq<char>,
    name: Seq<char>,
    value: Seq<u8>,
    file: Vec<u8>,
    now: u64,
)
    requires
        seal::holds(key@, header, set, (name, value), file@),
        now < header.expiry,
    ensures
        secret_read(set, name, FileReply::Bytes(file), now, KeyReply::Key(key)) == Ok::<
            Seq<u8>,
            Seq<char>,
        >(value),
{
}

/// A secret that has expired is refused, whatever key is found.
pub proof fn law_expired_refused(
    set: Seq<char>,
    name: Seq<char>,
    file: Vec<u8>,
    now: u64,
    key: KeyReply,
)
    requires
        vault::is_file(file@),
        vault::expiry_of(file@) <= now,
    ensures
        secret_read(set, name, FileReply::Bytes(file), now, key) == Err::<Seq<u8>, Seq<char>>(
            "keyset "@ + text::debug_text(set) + " has expired"@,
        ),
{
}

/// A secret whose encryption key expired, was revoked or is gone is not read.
pub proof fn law_locked_refused(set: Seq<char>, name: Seq<char>, reply: FileReply, now: u64)
    ensures
        secret_read(set, name, reply, now, KeyReply::Missing) is Err,
        file_found(set, name, reply, now) is Ok ==> secret_read(
            set,
            name,
            reply,
            now,
            KeyReply::Missing,
        ) == Err::<Seq<u8>, Seq<char>>(keyring::locked_message(set)),
{
}

/// A file that has not expired gives what it decrypts to, under the key that was found and
/// the names that were asked for; and where the key was not found, or the file was not,
/// nothing is read.
pub proof fn law_reads(
    set: Seq<char>,
    name: Seq<char>,
    file: Vec<u8>,
    now: u64,
    key: Secret,
    reply: KeyReply,
    e: OsError,
)
    ensures
        vault::is_file(file@) && now < vault::expiry_of(file@) ==> secret_read(
            set,
            name,
            FileReply::Bytes(file),
            now,
            KeyReply::Key(key),
        ) == vault::decrypted(key@, file@, set, name),
        !vault::is_file(file@) ==> secret_read(
            set,
            name,
            FileReply::Bytes(file),
            now,
            reply,
        ) == Err::<Seq<u8>, Seq<char>>("not a tempkeys secret file"@),
        !(reply is Key) ==> secret_read(set, name, FileReply::Bytes(file), now, reply) is Err,
        secret_read(set, name, FileReply::NoKeyset, now, reply) == Err::<Seq<u8>, Seq<char>>(
            "no keyset "@ + text::debug_text(set) + " (never loaded, expired, or cleared)"@,
        ),
        secret_read(set, name, FileReply::NotFound, now, reply) == Err::<Seq<u8>, Seq<char>>(
            "no key "@ + text::debug_text(name) + " in keyset "@ + text::debug_text(set),
        ),
        secret_read(set, name, FileReply::Failed(e), now, reply) is Err,
{
}

} // verus!
