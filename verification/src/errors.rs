//! Errors of the operating system, and how they are told.
use vstd::prelude::*;
use crate::text;

verus! {

/// The error numbers that decide something.
#[derive(Clone, Copy, PartialEq, Eq, Structural)]
pub enum Errno {
    /// `ENOSYS`
    NoSys,
    /// `EPERM`
    Perm,
    /// `EDQUOT`
    Quota,
    /// `ENOKEY`
    NoKey,
    /// `EKEYEXPIRED`
    KeyExpired,
    /// `EKEYREVOKED`
    KeyRevoked,
    /// Any other, or none.
    Other,
}

/// An error of the operating system: its number and its words.
pub struct OsError {
    pub errno: Errno,
    pub text: String,
}

/// What a message adds for an error number.
pub open spec fn hint(errno: Errno) -> Seq<char> {
    match errno {
        Errno::NoSys | Errno::Perm =>
            " (kernel keyrings unavailable: CONFIG_KEYS off or syscalls blocked by a sandbox)"@,
        Errno::Quota => " (key quota exceeded; see /proc/key-users and /proc/sys/kernel/keys/)"@,
        Errno::KeyExpired => " (key expired)"@,
        _ => ""@,
    }
}

/// The message for a keyring operation that failed.
pub open spec fn os_message(what: Seq<char>, e: OsError) -> Seq<char> {
    what + ": "@ + e.text@ + hint(e.errno)
}

/// The message for a keyring operation that failed.
pub fn os_err(what: &str, e: &OsError) -> (r: String)
    ensures
        r@ == os_message(what@, *e),
{
    let hint = match e.errno {
        Errno::NoSys | Errno::Perm =>
            " (kernel keyrings unavailable: CONFIG_KEYS off or syscalls blocked by a sandbox)",
        Errno::Quota => " (key quota exceeded; see /proc/key-users and /proc/sys/kernel/keys/)",
        Errno::KeyExpired => " (key expired)",
        _ => "",
    };
    let mut r = io_err(what, e);
    r.append(hint);
    r
}

/// The message for a file operation that failed.
pub open spec fn io_message(what: Seq<char>, e: OsError) -> Seq<char> {
    what + ": "@ + e.text@
}

/// The message for a file operation that failed.
pub fn io_err(what: &str, e: &OsError) -> (r: String)
    ensures
        r@ == io_message(what@, *e),
{
    text::join3(what, ": ", e.text.as_str())
}

/// Whether an error says that a key or keyring is gone for good.
pub open spec fn is_gone(errno: Errno) -> bool {
    errno is NoKey || errno is KeyExpired || errno is KeyRevoked
}

/// Whether an error says that a key or keyring is gone for good.
pub fn gone(errno: Errno) -> (r: bool)
    ensures
        r == is_gone(errno),
{
    match errno {
        Errno::NoKey | Errno::KeyExpired | Errno::KeyRevoked => true,
        _ => false,
    }
}

/// A key is gone for good where the kernel does not know it, or says that it expired or
/// was revoked, and by no other error.
pub proof fn law_gone(errno: Errno)
    ensures
        is_gone(errno) <==> errno == Errno::NoKey || errno == Errno::KeyExpired || errno
            == Errno::KeyRevoked,
{
}

/// A message is what failed and the error's own words, and a keyring's has a hint behind
/// them for the errors that need one, and for no others.
pub proof fn law_messages(what: Seq<char>, e: OsError)
    ensures
        io_message(what, e) == what + seq![':', ' '] + e.text@,
        io_message(what, e).is_prefix_of(os_message(what, e)),
        e.errno == Errno::NoKey || e.errno == Errno::KeyRevoked || e.errno == Errno::Other
            ==> os_message(what, e) == io_message(what, e),
        e.errno == Errno::NoSys || e.errno == Errno::Perm || e.errno == Errno::Quota || e.errno
            == Errno::KeyExpired ==> os_message(what, e).len() > io_message(what, e).len(),
{
    reveal_strlit(": ");
    reveal_strlit("");
    assert(": "@ =~= seq![':', ' ']);
    let a = io_message(what, e);
    let b = os_message(what, e);
    assert(a =~= b.subrange(0, a.len() as int));
    if e.errno == Errno::NoKey || e.errno == Errno::KeyRevoked || e.errno == Errno::Other {
        assert(b =~= a);
    }
    reveal_strlit(
        " (kernel keyrings unavailable: CONFIG_KEYS off or syscalls blocked by a sandbox)",
    );
    reveal_strlit(" (key quota exceeded; see /proc/key-users and /proc/sys/kernel/keys/)");
    reveal_strlit(" (key expired)");
}

} // verus!
