//! The Linux key retention calls (add_key(2), keyctl(2)): what each of them is
//! made of, and what its reply means. See keyrings(7).
use vstd::prelude::*;
use vstd::endian::*;
use vstd::string::*;
use vstd::utf8::*;
use crate::errors;
use crate::errors::{Errno, OsError};
use crate::secret::Secret;
use crate::text;

verus! {

/// A key's serial number, or a special keyring.
pub type KeyId = i32;

/// `@u`, the calling UID's user keyring.
pub const USER_KEYRING: KeyId = -4;

/// `@s`, the calling process's session keyring.
pub const SESSION_KEYRING: KeyId = -3;

/// Possessor holds view, read and search only. Used for session keys.
pub const PERM_POSSESSOR_READ: u32 = 0x0b00_0000;

/// Possessor holds everything but setattr: enough to add and remove keysets,
/// not enough to widen anyone's access.
pub const PERM_POSSESSOR_NO_SETATTR: u32 = 0x1f00_0000;

/// Possessor holds all six rights; used briefly while the launcher populates its ring.
pub const PERM_POSSESSOR_ALL: u32 = 0x3f00_0000;

/// Owner holds all six rights (view, read, write, search, link, setattr);
/// possessor, group and other hold none.
pub const PERM_OWNER_ALL: u32 = 0x003f_0000;

/// `KEYCTL_GET_KEYRING_ID`
pub const GET_KEYRING_ID: i64 = 0;

/// `KEYCTL_JOIN_SESSION_KEYRING`
pub const JOIN_SESSION_KEYRING: i64 = 1;

/// `KEYCTL_REVOKE`
pub const REVOKE: i64 = 3;

/// `KEYCTL_SETPERM`
pub const SETPERM: i64 = 5;

/// `KEYCTL_DESCRIBE`
pub const DESCRIBE: i64 = 6;

/// `KEYCTL_LINK`
pub const LINK: i64 = 8;

/// `KEYCTL_UNLINK`
pub const UNLINK: i64 = 9;

/// `KEYCTL_SEARCH`
pub const SEARCH: i64 = 10;

/// `KEYCTL_READ`
pub const READ: i64 = 11;

/// `KEYCTL_SET_TIMEOUT`
pub const SET_TIMEOUT: i64 = 15;

/// A system call to make. Byte strings end in a NUL byte and hold no other.
pub enum Call {
    /// `add_key`
    AddKey { kind: Vec<u8>, desc: Vec<u8>, payload: Secret, ring: KeyId },
    /// `keyctl` with integers alone
    Control { command: i64, first: i64, second: i64 },
    /// `keyctl` with a type and a description to search for
    Search { command: i64, ring: KeyId, kind: Vec<u8>, desc: Vec<u8> },
    /// `keyctl` with no name
    Join { command: i64 },
    /// `keyctl` that fills a buffer
    Fill { command: i64, id: KeyId },
}

/// Whether bytes are those of a text, with a NUL byte at their end and no other.
pub open spec fn is_cstr(bytes: Seq<u8>, s: Seq<char>) -> bool {
    bytes == encode_utf8(s).push(0) && !s.contains('\0')
}

/// The bytes of a text, with a NUL byte at their end.
fn cstr(s: &str) -> (r: Result<Vec<u8>, OsError>)
    ensures
        match r {
            Ok(bytes) => is_cstr(bytes@, s@),
            Err(e) => s@.contains('\0') && e.errno is Other && e.text@ == "embedded NUL"@,
        },
{
    if text::contains(s, '\0') {
        return Err(OsError { errno: Errno::Other, text: "embedded NUL".to_owned() });
    }
    let mut bytes = vstd::slice::slice_to_vec(s.as_bytes());
    bytes.push(0);
    Ok(bytes)
}

/// The call that adds (or updates) a `user`-type key.
pub fn add_user_key(desc: &str, payload: &[u8], ring: KeyId) -> (r: Result<Call, OsError>)
    ensures
        match r {
            Ok(Call::AddKey { kind, desc: d, payload: p, ring: into }) => {
                &&& is_cstr(kind@, "user"@)
                &&& is_cstr(d@, desc@)
                &&& p@ == payload@
                &&& into == ring
            },
            Ok(_) => false,
            Err(e) => desc@.contains('\0') && e.errno is Other && e.text@ == "embedded NUL"@,
        },
{
    let kind = match cstr("user") {
        Ok(k) => k,
        Err(e) => {
            proof {
                reveal_strlit("user");
                let i = choose|i: int| 0 <= i < "user"@.len() && "user"@[i] == '\0';
                assert("user"@[0] == 'u' && "user"@[1] == 's' && "user"@[2] == 'e' && "user"@[3]
                    == 'r');
                assert(false);
            }
            return Err(e);
        },
    };
    let d = match cstr(desc) {
        Ok(d) => d,
        Err(e) => {
            return Err(e);
        },
    };
    let payload = Secret(vstd::slice::slice_to_vec(payload));
    Ok(Call::AddKey { kind, desc: d, payload, ring })
}

/// The call that sets who may do what with a key or keyring.
pub fn set_perm(id: KeyId, perm: u32) -> (r: Call)
    ensures
        r == (Call::Control { command: SETPERM, first: id as i64, second: perm as i64 }),
{
    Call::Control { command: SETPERM, first: id as i64, second: perm as i64 }
}

/// The call that makes the key or keyring expire after `secs` seconds.
pub fn set_timeout(id: KeyId, secs: u32) -> (r: Call)
    ensures
        r == (Call::Control { command: SET_TIMEOUT, first: id as i64, second: secs as i64 }),
{
    Call::Control { command: SET_TIMEOUT, first: id as i64, second: secs as i64 }
}

/// The call that revokes a key.
pub fn revoke(id: KeyId) -> (r: Call)
    ensures
        r == (Call::Control { command: REVOKE, first: id as i64, second: 0 }),
{
    Call::Control { command: REVOKE, first: id as i64, second: 0 }
}

/// The call that links a key into a keyring.
pub fn link(id: KeyId, ring: KeyId) -> (r: Call)
    ensures
        r == (Call::Control { command: LINK, first: id as i64, second: ring as i64 }),
{
    Call::Control { command: LINK, first: id as i64, second: ring as i64 }
}

/// The call that unlinks a key from a keyring.
pub fn unlink(id: KeyId, ring: KeyId) -> (r: Call)
    ensures
        r == (Call::Control { command: UNLINK, first: id as i64, second: ring as i64 }),
{
    Call::Control { command: UNLINK, first: id as i64, second: ring as i64 }
}

/// The call that resolves a special keyring such as `SESSION_KEYRING` to its real
/// serial number, and never creates one.
pub fn serial(special: KeyId) -> (r: Call)
    ensures
        r == (Call::Control { command: GET_KEYRING_ID, first: special as i64, second: 0 }),
{
    Call::Control { command: GET_KEYRING_ID, first: special as i64, second: 0 }
}

/// The call that creates a fresh anonymous session keyring and makes the calling
/// process its member. Children inherit it across fork and execve.
pub fn join_fresh_session_keyring() -> (r: Call)
    ensures
        r == (Call::Join { command: JOIN_SESSION_KEYRING }),
{
    Call::Join { command: JOIN_SESSION_KEYRING }
}

/// The call that reads a key's payload (or a keyring's packed list of key IDs).
pub fn read(id: KeyId) -> (r: Call)
    ensures
        r == (Call::Fill { command: READ, id }),
{
    Call::Fill { command: READ, id }
}

/// The call that describes a key.
pub fn describe(id: KeyId) -> (r: Call)
    ensures
        r == (Call::Fill { command: DESCRIBE, id }),
{
    Call::Fill { command: DESCRIBE, id }
}

/// The call that searches `ring` (recursively) for a key of `kind` with exactly
/// this description.
pub fn search(ring: KeyId, kind: &str, desc: &str) -> (r: Result<Call, OsError>)
    ensures
        match r {
            Ok(Call::Search { command, ring: within, kind: k, desc: d }) => {
                &&& command == SEARCH
                &&& within == ring
                &&& is_cstr(k@, kind@)
                &&& is_cstr(d@, desc@)
            },
            Ok(_) => false,
            Err(e) => (kind@.contains('\0') || desc@.contains('\0')) && e.errno is Other && e.text@
                == "embedded NUL"@,
        },
{
    match cstr(kind) {
        Ok(kind) => match cstr(desc) {
            Ok(desc) => Ok(Call::Search { command: SEARCH, ring, kind, desc }),
            Err(e) => Err(e),
        },
        Err(e) => Err(e),
    }
}

/// The key that a call's reply names.
pub fn key_of(reply: i64) -> (id: KeyId)
    ensures
        id == reply as i32,
        0 <= reply <= i32::MAX ==> id == reply,
{
    #[verifier::truncate]
    let id: i32 = reply as i32;
    id
}

/// The key that a search found. Missing, expired and revoked keys all yield `None`.
pub fn search_reply(reply: Result<i64, OsError>) -> (r: Result<Option<KeyId>, OsError>)
    ensures
        match reply {
            Ok(id) => r == Ok::<Option<KeyId>, OsError>(Some(id as i32)),
            Err(e) => if errors::is_gone(e.errno) {
                r == Ok::<Option<KeyId>, OsError>(None)
            } else {
                r == Err::<Option<KeyId>, OsError>(e)
            },
        },
{
    match reply {
        Ok(id) => Ok(Some(key_of(id))),
        Err(e) => if errors::gone(e.errno) {
            Ok(None)
        } else {
            Err(e)
        },
    }
}

/// Another session's ring is not viewable while it lives, and the kernel forgets
/// it once nothing references it: whether describing it says so.
pub fn session_is_dead(described: &Result<i64, OsError>) -> (r: bool)
    ensures
        r == (described matches Err(e) && errors::is_gone(e.errno)),
{
    match described {
        Ok(_) => false,
        Err(e) => errors::gone(e.errno),
    }
}

/// `n` zero bytes.
pub open spec fn zeros(n: nat) -> Seq<u8> {
    Seq::new(n, |i: int| 0u8)
}

/// A buffer of zero bytes.
pub fn buffer(n: usize) -> (r: Secret)
    ensures
        r@ == zeros(n as nat),
{
    let r = Secret(vec![0u8; n]);
    assert(r@ =~= zeros(n as nat));
    r
}

/// Takes note that a call had `need` bytes to write to the buffer. Where they
/// fitted, the buffer is cut to them; otherwise it is replaced by one in which they
/// will, for another try.
pub fn accept(buf: &mut Secret, need: usize) -> (done: bool)
    ensures
        done == (need <= old(buf)@.len()),
        done ==> final(buf)@ == old(buf)@.take(need as int),
        !done ==> final(buf)@ == zeros(need as nat),
{
    if need <= buf.0.len() {
        buf.0.truncate(need);
        assert(buf@ =~= old(buf)@.take(need as int));
        true
    } else {
        *buf = buffer(need);
        false
    }
}

/// The number that four bytes hold as a signed 32-bit one.
pub open spec fn int_of(b0: u8, b1: u8, b2: u8, b3: u8) -> int {
    let u = b0 + 0x100 * b1 + 0x1_0000 * b2 + 0x100_0000 * b3;
    if u < 0x8000_0000 {
        u
    } else {
        u - 0x1_0000_0000
    }
}

/// The number that four bytes hold in the machine's own byte order.
pub open spec fn native_int(b: Seq<u8>) -> int {
    match endianness() {
        Endian::Little => int_of(b[0], b[1], b[2], b[3]),
        Endian::Big => int_of(b[3], b[2], b[1], b[0]),
    }
}

/// `i32::from_ne_bytes`: the number in the machine's byte order, in two's
/// complement.
#[verifier::external_body]
fn from_native(bytes: [u8; 4]) -> (n: i32)
    ensures
        n == native_int(bytes@),
{
    i32::from_ne_bytes(bytes)
}

/// IDs of everything linked into a keyring, from its payload: four bytes each, and
/// what is left over is no ID.
pub fn list_keyring(raw: &[u8]) -> (ids: Vec<KeyId>)
    ensures
        ids@.len() == raw@.len() / 4,
        forall|i: int|
            0 <= i < ids@.len() ==> #[trigger] ids@[i] == native_int(
                raw@.subrange(4 * i, 4 * i + 4),
            ),
{
    let mut ids: Vec<KeyId> = Vec::new();
    let total: usize = raw.len();
    let mut at: usize = 0;
    while total - at >= 4
        invariant
            total == raw@.len(),
            at <= total,
            at == 4 * ids@.len(),
            forall|i: int|
                0 <= i < ids@.len() ==> #[trigger] ids@[i] == native_int(
                    raw@.subrange(4 * i, 4 * i + 4),
                ),
        decreases total - at,
    {
        let bytes: [u8; 4] = [raw[at], raw[at + 1], raw[at + 2], raw[at + 3]];
        assert(bytes@ =~= raw@.subrange(at as int, at + 4));
        ids.push(from_native(bytes));
        at = at + 4;
    }
    ids
}

/// The text that bytes are taken for: what is no UTF-8 is replaced.
pub uninterp spec fn lossy_text(bytes: Seq<u8>) -> Seq<char>;

/// `String::from_utf8_lossy`: the text that bytes encode, where they do encode one.
/// What stands for bytes that do not is only named.
#[verifier::external_body]
fn from_lossy(bytes: &[u8]) -> (r: String)
    ensures
        r@ == lossy_text(bytes@),
        valid_utf8(bytes@) ==> r@ == decode_utf8(bytes@),
{
    String::from_utf8_lossy(bytes).into_owned()
}

/// Bytes without the zero bytes that they end with.
pub open spec fn without_zeros(raw: Seq<u8>) -> Seq<u8>
    decreases raw.len(),
{
    if raw.len() > 0 && raw.last() == 0 {
        without_zeros(raw.drop_last())
    } else {
        raw
    }
}

/// What follows the `n`th semicolon.
pub open spec fn after_semicolons(s: Seq<char>, n: nat) -> Option<Seq<char>>
    decreases n,
{
    if n == 0 {
        Some(s)
    } else {
        match text::cut(s, ';') {
            Some((_, rest)) => after_semicolons(rest, (n - 1) as nat),
            None => None,
        }
    }
}

/// The type and the description in what the kernel says of a key, which it formats
/// as `type;uid;gid;perm;desc`. A part that is missing is empty.
pub open spec fn described(s: Seq<char>) -> (Seq<char>, Seq<char>) {
    (
        match text::cut(s, ';') {
            Some((kind, _)) => kind,
            None => s,
        },
        match after_semicolons(s, 4) {
            Some(desc) => desc,
            None => Seq::empty(),
        },
    )
}

/// What follows the `n`th semicolon.
fn skip_semicolons<'a>(s: &'a str, n: usize) -> (r: Option<&'a str>)
    ensures
        match r {
            Some(t) => after_semicolons(s@, n as nat) == Some(t@),
            None => after_semicolons(s@, n as nat) is None,
        },
    decreases n,
{
    if n == 0 {
        Some(s)
    } else {
        match text::split_once(s, ';') {
            Some((_, rest)) => skip_semicolons(rest, n - 1),
            None => None,
        }
    }
}

/// The type and the description in what the kernel says of a key.
pub fn parse_description(s: &str) -> (r: (String, String))
    ensures
        (r.0@, r.1@) == described(s@),
{
    let kind = match text::split_once(s, ';') {
        Some((kind, _)) => kind,
        None => s,
    };
    let desc = match skip_semicolons(s, 4) {
        Some(desc) => desc.to_owned(),
        None => {
            let empty = String::new();
            assert(empty@ =~= Seq::<char>::empty());
            empty
        },
    };
    (kind.to_owned(), desc)
}

/// The type and the description of a key, from the bytes that the kernel gave.
pub fn describe_reply(raw: &[u8]) -> (r: (String, String))
    ensures
        (r.0@, r.1@) == described(lossy_text(without_zeros(raw@))),
        valid_utf8(without_zeros(raw@)) ==> (r.0@, r.1@) == described(
            decode_utf8(without_zeros(raw@)),
        ),
{
    let mut end: usize = raw.len();
    assert(raw@.take(end as int) =~= raw@);
    while end > 0 && raw[end - 1] == 0
        invariant
            end <= raw@.len(),
            without_zeros(raw@) == without_zeros(raw@.take(end as int)),
        decreases end,
    {
        assert(raw@.take(end as int).drop_last() =~= raw@.take(end - 1));
        end = end - 1;
    }
    let bytes = vstd::slice::slice_subrange(raw, 0, end);
    assert(bytes@ =~= raw@.take(end as int));
    let s = from_lossy(bytes);
    parse_description(s.as_str())
}

/// What came of asking the kernel for random bytes.
pub enum Draw {
    /// The buffer is full.
    Full,
    /// Ask again for the bytes from here on.
    From(usize),
    /// The call failed.
    Failed,
}

/// What to do after a call that wrote `n` random bytes behind the first `filled` of
/// a buffer of `len`, or failed where `n` is negative. One that a signal
/// interrupted is made again.
pub fn draw_step(len: usize, filled: usize, n: i64, interrupted: bool) -> (r: Draw)
    requires
        filled + n <= len,
    ensures
        n < 0 && interrupted ==> r == Draw::From(filled),
        n < 0 && !interrupted ==> r is Failed,
        n >= 0 && filled + n == len ==> r is Full,
        n >= 0 && filled + n < len ==> r == Draw::From((filled + n) as usize),
{
    if n < 0 {
        if interrupted {
            Draw::From(filled)
        } else {
            Draw::Failed
        }
    } else {
        let at: usize = filled + n as usize;
        if at == len {
            Draw::Full
        } else {
            Draw::From(at)
        }
    }
}

/// One part is taken off.
proof fn lemma_after_part(part: Seq<char>, rest: Seq<char>, n: nat)
    requires
        !part.contains(';'),
        n > 0,
    ensures
        text::cut(part + seq![';'] + rest, ';') == Some((part, rest)),
        after_semicolons(part + seq![';'] + rest, n) == after_semicolons(rest, (n - 1) as nat),
{
    let s = part + seq![';'] + rest;
    assert forall|i: int| 0 <= i < part.len() implies s[i] != ';' by {
        assert(part.contains(part[i]));
    }
    text::lemma_find_is(s, ';', part.len() as int);
    assert(s.take(part.len() as int) =~= part);
    assert(s.skip(part.len() as int + 1) =~= rest);
}

/// A description comes through whole, whatever stands in it: only the parts before
/// it may hold no semicolon.
pub proof fn law_description_whole(
    kind: Seq<char>,
    uid: Seq<char>,
    gid: Seq<char>,
    perm: Seq<char>,
    desc: Seq<char>,
)
    requires
        !kind.contains(';'),
        !uid.contains(';'),
        !gid.contains(';'),
        !perm.contains(';'),
    ensures
        described(
            kind + seq![';'] + (uid + seq![';'] + (gid + seq![';'] + (perm + seq![';'] + desc))),
        ) == (kind, desc),
{
    let d = perm + seq![';'] + desc;
    let c = gid + seq![';'] + d;
    let b = uid + seq![';'] + c;
    lemma_after_part(kind, b, 4);
    lemma_after_part(uid, c, 3);
    lemma_after_part(gid, d, 2);
    lemma_after_part(perm, desc, 1);
}

/// The zero bytes at the end are taken off, all of them and nothing else.
pub proof fn law_without_zeros(s: Seq<u8>, n: nat)
    requires
        s.len() > 0 ==> s.last() != 0,
    ensures
        without_zeros(s + Seq::new(n, |i: int| 0u8)) == s,
    decreases n,
{
    let t = s + Seq::new(n, |i: int| 0u8);
    if n == 0 {
        assert(t =~= s);
    } else {
        law_without_zeros(s, (n - 1) as nat);
        assert(t.last() == 0);
        assert(t.drop_last() =~= s + Seq::new((n - 1) as nat, |i: int| 0u8));
    }
}

/// What the kernel says without a semicolon is a type alone, and what has fewer than four
/// has no description.
pub proof fn law_description_missing(
    kind: Seq<char>,
    a: Seq<char>,
    b: Seq<char>,
    c: Seq<char>,
)
    requires
        !kind.contains(';'),
        !a.contains(';'),
        !b.contains(';'),
        !c.contains(';'),
    ensures
        described(kind) == (kind, Seq::<char>::empty()),
        described(kind + seq![';'] + a) == (kind, Seq::<char>::empty()),
        described(kind + seq![';'] + (a + seq![';'] + b)) == (kind, Seq::<char>::empty()),
        described(kind + seq![';'] + (a + seq![';'] + (b + seq![';'] + c))) == (
            kind,
            Seq::<char>::empty(),
        ),
{
    reveal_with_fuel(after_semicolons, 5);
    text::law_cut(kind, ';', a);
    text::law_cut(kind, ';', a + seq![';'] + b);
    text::law_cut(kind, ';', a + seq![';'] + (b + seq![';'] + c));
    text::law_cut(a, ';', b);
    text::law_cut(a, ';', b + seq![';'] + c);
    text::law_cut(b, ';', c);
    text::law_cut(c, ';', c);
}

/// A byte string for the kernel is the bytes of a text and a NUL byte, which is its only
/// one.
pub proof fn law_cstr(bytes: Seq<u8>, s: Seq<char>)
    requires
        is_cstr(bytes, s),
    ensures
        bytes.len() > 0,
        bytes.last() == 0,
        bytes.drop_last() == encode_utf8(s),
        !bytes.drop_last().contains(0),
{
    assert(bytes.drop_last() =~= encode_utf8(s));
    text::lemma_ascii_byte(s, '\0');
}

/// The numbers of the kernel's interface, which no two commands share, and the special
/// keyrings.
pub proof fn law_commands()
    ensures
        seq![
            GET_KEYRING_ID,
            JOIN_SESSION_KEYRING,
            REVOKE,
            SETPERM,
            DESCRIBE,
            LINK,
            UNLINK,
            SEARCH,
            READ,
            SET_TIMEOUT,
        ] == seq![0i64, 1, 3, 5, 6, 8, 9, 10, 11, 15],
        SESSION_KEYRING == -3,
        USER_KEYRING == -4,
{
}

/// A buffer is as long as it is asked for, and zero throughout.
pub proof fn law_zeros(n: nat, i: int)
    ensures
        zeros(n).len() == n,
        0 <= i < n ==> zeros(n)[i] == 0,
{
}

} // verus!
