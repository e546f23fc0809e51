//! Encrypted secret files.
//!
//! One secret per file. Layout:
//!
//! ```text
//! "TKY1" | generation (16) | expiry, unix secs, BE (8) | XChaCha20 nonce (24) | ciphertext+tag
//! ```
//!
//! The first three fields are cleartext so readers can pick the right key and
//! prune expired files, but all of them are authenticated: the AEAD's associated
//! data is the header plus the keyset and key names. A file therefore cannot be
//! swapped with another key's file, moved to another keyset, or have its expiry
//! extended unless the AEAD accepts associated data other than what it sealed.
use chacha20poly1305::aead::{Aead, Payload};
use chacha20poly1305::{KeyInit, XChaCha20Poly1305, XNonce};
use vstd::prelude::*;
use vstd::string::*;
use vstd::utf8::*;
use crate::secret::Secret;
use crate::text;

verus! {

/// Bytes of an encryption key.
pub const KEY_LEN: usize = 32;

/// Bytes of a key generation.
pub const GEN_LEN: usize = 16;

/// Bytes of a nonce.
pub const NONCE_LEN: usize = 24;

/// Bytes of a file's header: the magic, the generation and the expiry.
pub const HEADER_LEN: usize = 28;

/// Names the encryption key that a keyset's files are sealed with.
pub type Generation = [u8; 16];

/// The cleartext header of a file.
pub struct Header {
    pub generation: Generation,
    pub expiry: u64,
}

/// The bytes that every file begins with: `TKY1`.
pub open spec fn magic() -> Seq<u8> {
    seq![0x54u8, 0x4b, 0x59, 0x31]
}

/// The number that bytes hold, the most significant first.
pub open spec fn be_value(bytes: Seq<u8>) -> nat
    decreases bytes.len(),
{
    if bytes.len() == 0 {
        0
    } else {
        be_value(bytes.drop_last()) * 256 + bytes.last() as nat
    }
}

/// The last `count` bytes of `n`, the most significant first.
pub open spec fn be_bytes(n: nat, count: nat) -> Seq<u8>
    decreases count,
{
    if count == 0 {
        Seq::empty()
    } else {
        be_bytes(n / 256, (count - 1) as nat).push((n % 256) as u8)
    }
}

/// The numbers that `count` bytes can hold are those below this.
pub open spec fn be_limit(count: nat) -> nat
    decreases count,
{
    if count == 0 {
        1
    } else {
        256 * be_limit((count - 1) as nat)
    }
}

/// Bytes hold a number below their limit.
proof fn lemma_be_value(bytes: Seq<u8>)
    ensures
        be_value(bytes) < be_limit(bytes.len()),
    decreases bytes.len(),
{
    if bytes.len() > 0 {
        lemma_be_value(bytes.drop_last());
    }
}

/// A number is what its bytes hold.
proof fn lemma_be_bytes(n: nat, count: nat)
    requires
        n < be_limit(count),
    ensures
        be_bytes(n, count).len() == count,
        be_value(be_bytes(n, count)) == n,
    decreases count,
{
    if count > 0 {
        let front = be_bytes(n / 256, (count - 1) as nat);
        lemma_be_bytes(n / 256, (count - 1) as nat);
        assert(be_bytes(n, count).drop_last() =~= front);
    }
}

/// Eight bytes hold exactly the numbers of 64 bits.
proof fn lemma_be_limit()
    ensures
        be_limit(8) == 0x1_0000_0000_0000_0000,
        forall|k: nat| k <= 7 ==> #[trigger] be_limit(k) <= 0x100_0000_0000_0000,
{
    reveal_with_fuel(be_limit, 9);
    assert forall|k: nat| k <= 7 implies #[trigger] be_limit(k) <= 0x100_0000_0000_0000 by {
        if k == 0 {
        } else if k == 1 {
        } else if k == 2 {
        } else if k == 3 {
        } else if k == 4 {
        } else if k == 5 {
        } else if k == 6 {
        } else {
            assert(k == 7);
        }
    }
}

/// Appends the last `count` bytes of `n`, the most significant first.
fn push_be(out: &mut Vec<u8>, n: u64, count: usize)
    ensures
        final(out)@ == old(out)@ + be_bytes(n as nat, count as nat),
    decreases count,
{
    if count > 0 {
        push_be(out, n / 256, count - 1);
        out.push((n % 256) as u8);
    }
}

/// The number that eight bytes of `file`, from `at` on, hold.
fn read_be(file: &[u8], at: usize) -> (n: u64)
    requires
        at + 8 <= file@.len(),
    ensures
        n == be_value(file@.subrange(at as int, at + 8)),
{
    let mut n: u64 = 0;
    let mut i: usize = 0;
    let end: usize = file.len();
    let ghost bytes = file@.subrange(at as int, at + 8);
    assert(bytes.take(0) =~= Seq::<u8>::empty());
    while i < 8
        invariant
            i <= 8,
            at + 8 <= end == file@.len(),
            bytes == file@.subrange(at as int, at + 8),
            n == be_value(bytes.take(i as int)),
        decreases 8 - i,
    {
        proof {
            lemma_be_value(bytes.take(i as int));
            lemma_be_limit();
            assert(bytes.take(i + 1).drop_last() =~= bytes.take(i as int));
            assert(bytes.take(i + 1).last() == bytes[i as int]);
        }
        n = n * 256 + file[at + i] as u64;
        i = i + 1;
    }
    assert(bytes.take(8) =~= bytes);
    n
}

/// The lower-case hexadecimal digit of a number below sixteen.
pub open spec fn hex_digit(d: u8) -> char {
    if d < 10 {
        (48 + d) as char
    } else {
        (87 + d) as char
    }
}

/// Bytes in hexadecimal, two digits each.
pub open spec fn hex_text(bytes: Seq<u8>) -> Seq<char> {
    Seq::new(
        2 * bytes.len(),
        |i: int|
            hex_digit(
                if i % 2 == 0 {
                    bytes[i / 2] / 16
                } else {
                    bytes[i / 2] % 16
                },
            ),
    )
}

/// The hexadecimal digit of a number below sixteen.
fn digit_of(d: u8) -> (c: char)
    requires
        d < 16,
    ensures
        c == hex_digit(d),
{
    let v: u8 = if d < 10 {
        48 + d
    } else {
        87 + d
    };
    v as char
}

/// A generation in hexadecimal.
pub fn hex(generation: &Generation) -> (r: String)
    ensures
        r@ == hex_text(generation@),
{
    let mut r = String::new();
    let mut i: usize = 0;
    while i < GEN_LEN
        invariant
            i <= GEN_LEN,
            r@ =~= hex_text(generation@.take(i as int)),
        decreases GEN_LEN - i,
    {
        let b: u8 = generation[i];
        r.push(digit_of(b / 16));
        r.push(digit_of(b % 16));
        i = i + 1;
    }
    assert(generation@.take(i as int) =~= generation@);
    r
}

/// Whether a file has the magic, a header and a nonce.
pub open spec fn is_file(file: Seq<u8>) -> bool {
    file.len() >= HEADER_LEN + NONCE_LEN && file.take(4) == magic()
}

/// The generation in a file's header.
pub open spec fn generation_of(file: Seq<u8>) -> Seq<u8> {
    file.subrange(4, 20)
}

/// The expiry in a file's header.
pub open spec fn expiry_of(file: Seq<u8>) -> nat {
    be_value(file.subrange(20, 28))
}

/// Parses and validates the cleartext header; does not authenticate it.
pub fn parse_header(file: &[u8]) -> (r: Result<Header, String>)
    ensures
        match r {
            Ok(h) => is_file(file@) && h.generation@ == generation_of(file@) && h.expiry
                == expiry_of(file@),
            Err(e) => !is_file(file@) && e@ == "not a tempkeys secret file"@,
        },
{
    if file.len() < HEADER_LEN + NONCE_LEN || file[0] != 0x54 || file[1] != 0x4b || file[2] != 0x59
        || file[3] != 0x31 {
        proof {
            if is_file(file@) {
                assert(file@.take(4)[0] == 0x54);
                assert(file@.take(4)[1] == 0x4b);
                assert(file@.take(4)[2] == 0x59);
                assert(file@.take(4)[3] == 0x31);
            }
        }
        return Err("not a tempkeys secret file".to_owned());
    }
    assert(file@.take(4) =~= magic());
    let mut generation: Generation = [0; 16];
    let mut i: usize = 0;
    while i < GEN_LEN
        invariant
            i <= GEN_LEN,
            file@.len() >= HEADER_LEN + NONCE_LEN,
            forall|k: int| 0 <= k < i ==> generation@[k] == file@[4 + k],
        decreases GEN_LEN - i,
    {
        generation[i] = file[4 + i];
        i = i + 1;
    }
    assert(generation@ =~= generation_of(file@));
    Ok(Header { generation, expiry: read_be(file, 20) })
}

/// The header of a file that could be read and is a secret file.
pub fn header_of(file: &Option<Vec<u8>>) -> (r: Option<Header>)
    ensures
        match r {
            Some(h) => *file matches Some(f) && is_file(f@) && h.generation@
                == generation_of(f@) && h.expiry == expiry_of(f@),
            None => *file matches Some(f) ==> !is_file(f@),
        },
{
    match file {
        Some(f) => match parse_header(f.as_slice()) {
            Ok(h) => Some(h),
            Err(_) => None,
        },
        None => None,
    }
}

/// Why the cipher refused its arguments.
pub enum Refusal {
    /// The key does not have its length.
    KeyLength,
    /// The message is too long to seal, or not what was sealed.
    Message,
}

/// What XChaCha20-Poly1305 makes of a message: the ciphertext and its tag.
pub uninterp spec fn aead_seal(key: Seq<u8>, nonce: Seq<u8>, msg: Seq<u8>, aad: Seq<u8>) -> Seq<u8>;

/// The message that XChaCha20-Poly1305 finds in a ciphertext and its tag, or `None`
/// where they are not authentic.
pub uninterp spec fn aead_open(
    key: Seq<u8>,
    nonce: Seq<u8>,
    sealed: Seq<u8>,
    aad: Seq<u8>,
) -> Option<Seq<u8>>;

/// Message lengths that the cipher refuses: its block counter has 32 bits.
pub open spec fn too_long(n: int) -> bool {
    n / 64 >= 0xffff_ffff
}

/// Message lengths that the cipher does not refuse, and for which its key stream
/// is too short all the same: it panics on them.
pub open spec fn overruns(n: int) -> bool {
    64 * 0xffff_fffe < n && !too_long(n)
}

/// Seals a message with `Aead::encrypt` of `XChaCha20Poly1305`, made by
/// `KeyInit::new_from_slice`.
///
/// Claimed: a key of other than 32 bytes is refused, and then a message of 2^32-1
/// blocks of 64 bytes or more. Otherwise the result is a function of the
/// arguments, 16 bytes longer than the message, and it opens to the message under
/// the same key, nonce and associated data. Messages that overrun the key stream
/// are left out, since the cipher panics on them.
#[verifier::external_body]
fn seal(key: &[u8], nonce: &[u8; 24], msg: &[u8], aad: &[u8]) -> (r: Result<Vec<u8>, Refusal>)
    requires
        !overruns(msg@.len() as int),
        msg@.len() + 16 <= isize::MAX,
    ensures
        match r {
            Ok(sealed) => {
                &&& key@.len() == 32
                &&& !too_long(msg@.len() as int)
                &&& sealed@ == aead_seal(key@, nonce@, msg@, aad@)
                &&& sealed@.len() == msg@.len() + 16
                &&& aead_open(key@, nonce@, sealed@, aad@) == Some(msg@)
            },
            Err(Refusal::KeyLength) => key@.len() != 32,
            Err(Refusal::Message) => key@.len() == 32 && too_long(msg@.len() as int),
        },
{
    let cipher = XChaCha20Poly1305::new_from_slice(key).map_err(|_| Refusal::KeyLength)?;
    cipher.encrypt(&XNonce::from(*nonce), Payload { msg, aad }).map_err(|_| Refusal::Message)
}

/// Opens a sealed message with `Aead::decrypt` of `XChaCha20Poly1305`, made by
/// `KeyInit::new_from_slice`.
///
/// Claimed: a key of other than 32 bytes is refused. Otherwise the result is a
/// function of the arguments, and a message that comes out is one that seals to
/// these very bytes under the same key, nonce and associated data. What is shorter
/// than a tag, or too long, never opens. Messages that overrun the key stream are
/// left out, since the cipher panics on authentic ones.
///
/// Not claimed: that no other associated data open the same bytes. That is
/// infeasible to bring about, not impossible.
#[verifier::external_body]
fn open(key: &[u8], nonce: &[u8; 24], sealed: &[u8], aad: &[u8]) -> (r: Result<Vec<u8>, Refusal>)
    requires
        !overruns(sealed@.len() - 16),
    ensures
        match r {
            Ok(msg) => {
                &&& key@.len() == 32
                &&& !too_long(msg@.len() as int)
                &&& aead_open(key@, nonce@, sealed@, aad@) == Some(msg@)
                &&& sealed@ == aead_seal(key@, nonce@, msg@, aad@)
                &&& sealed@.len() == msg@.len() + 16
            },
            Err(Refusal::KeyLength) => key@.len() != 32,
            Err(Refusal::Message) => key@.len() == 32 && aead_open(key@, nonce@, sealed@, aad@)
                is None,
        },
{
    let cipher = XChaCha20Poly1305::new_from_slice(key).map_err(|_| Refusal::KeyLength)?;
    cipher.decrypt(&XNonce::from(*nonce), Payload { msg: sealed, aad }).map_err(
        |_| Refusal::Message,
    )
}

/// Whether a value of `n` bytes can be sealed, or is refused, without the key
/// stream running out.
pub fn sealable(n: usize) -> (r: bool)
    ensures
        r == (!overruns(n as int) && n + 68 <= isize::MAX),
{
    let blocks: u64 = n as u64 / 64;
    (n as u64 <= 0x3f_ffff_ff80 || blocks >= 0xffff_ffff) && n <= (isize::MAX as usize) - 68
}

/// Whether a file of `n` bytes can be opened, or is refused, without the key
/// stream running out.
pub fn openable(n: usize) -> (r: bool)
    ensures
        r == !overruns(n - 68),
{
    let long: u64 = n as u64;
    long <= 0x3f_ffff_ff80 + 68 || (long - 68) / 64 >= 0xffff_ffff
}

/// The header of a file.
pub open spec fn header_bytes(generation: Seq<u8>, expiry: nat) -> Seq<u8> {
    magic() + generation + be_bytes(expiry, 8)
}

/// What is authenticated beside a file's secret: its header, and the names of the
/// keyset and the key.
pub open spec fn aad_bytes(header: Seq<u8>, set: Seq<char>, name: Seq<char>) -> Seq<u8> {
    header + seq![0u8] + encode_utf8(set) + seq![0u8] + encode_utf8(name)
}

/// The associated data of a file.
pub fn aad(header: &[u8], set: &str, name: &str) -> (r: Vec<u8>)
    ensures
        r@ == aad_bytes(header@, set@, name@),
{
    let mut a = vstd::slice::slice_to_vec(header);
    a.push(0);
    a.extend_from_slice(set.as_bytes());
    a.push(0);
    a.extend_from_slice(name.as_bytes());
    assert(a@ =~= aad_bytes(header@, set@, name@));
    a
}

/// The file that holds `plaintext`, or why there is none.
pub open spec fn encrypted(
    key: Seq<u8>,
    generation: Seq<u8>,
    expiry: nat,
    set: Seq<char>,
    name: Seq<char>,
    plaintext: Seq<u8>,
    nonce: Seq<u8>,
) -> Result<Seq<u8>, Seq<char>> {
    let header = header_bytes(generation, expiry);
    if key.len() != KEY_LEN {
        Err("bad key length"@)
    } else if too_long(plaintext.len() as int) {
        Err("encryption failed"@)
    } else {
        Ok(header + nonce + aead_seal(key, nonce, plaintext, aad_bytes(header, set, name)))
    }
}

/// The secret that `file` holds, or why it cannot be had.
pub open spec fn decrypted(
    key: Seq<u8>,
    file: Seq<u8>,
    set: Seq<char>,
    name: Seq<char>,
) -> Result<Seq<u8>, Seq<char>> {
    if !is_file(file) {
        Err("not a tempkeys secret file"@)
    } else if key.len() != KEY_LEN {
        Err("bad key length"@)
    } else {
        match aead_open(
            key,
            file.subrange(28, 52),
            file.skip(52),
            aad_bytes(file.take(28), set, name),
        ) {
            Some(plaintext) => Ok(plaintext),
            None => Err("decryption failed: wrong key, or the file was modified or moved"@),
        }
    }
}

/// Where the parts of a file stand.
proof fn lemma_file_parts(generation: Seq<u8>, expiry: nat, nonce: Seq<u8>, sealed: Seq<u8>)
    requires
        generation.len() == GEN_LEN,
        nonce.len() == NONCE_LEN,
        expiry <= u64::MAX,
    ensures
        ({
            let header = header_bytes(generation, expiry);
            let file = header + nonce + sealed;
            &&& header.len() == HEADER_LEN
            &&& is_file(file)
            &&& generation_of(file) == generation
            &&& expiry_of(file) == expiry
            &&& file.take(28) == header
            &&& file.subrange(28, 52) == nonce
            &&& file.skip(52) == sealed
        }),
{
    let header = header_bytes(generation, expiry);
    let file = header + nonce + sealed;
    lemma_be_limit();
    lemma_be_bytes(expiry, 8);
    assert(file.take(4) =~= magic());
    assert(generation_of(file) =~= generation);
    assert(file.subrange(20, 28) =~= be_bytes(expiry, 8));
    assert(file.take(28) =~= header);
    assert(file.subrange(28, 52) =~= nonce);
    assert(file.skip(52) =~= sealed);
}

/// Encrypts one secret into the bytes of its file. What comes out decrypts to the
/// secret, under the same key and names, and its header is the one given.
pub fn encrypt(
    key: &[u8],
    generation: &Generation,
    expiry: u64,
    set: &str,
    name: &str,
    plaintext: &[u8],
    nonce: &[u8; 24],
) -> (r: Result<Vec<u8>, String>)
    requires
        !overruns(plaintext@.len() as int),
        plaintext@.len() + 68 <= isize::MAX,
    ensures
        match r {
            Ok(file) => encrypted(
                key@,
                generation@,
                expiry as nat,
                set@,
                name@,
                plaintext@,
                nonce@,
            ) == Ok::<Seq<u8>, Seq<char>>(file@),
            Err(e) => encrypted(
                key@,
                generation@,
                expiry as nat,
                set@,
                name@,
                plaintext@,
                nonce@,
            ) == Err::<Seq<u8>, Seq<char>>(e@),
        },
        r matches Ok(file) ==> {
            &&& is_file(file@)
            &&& generation_of(file@) == generation@
            &&& expiry_of(file@) == expiry
            &&& file@.len() == plaintext@.len() + 68
            &&& decrypted(key@, file@, set@, name@) == Ok::<Seq<u8>, Seq<char>>(plaintext@)
        },
{
    let mut out: Vec<u8> = Vec::new();
    out.push(0x54);
    out.push(0x4b);
    out.push(0x59);
    out.push(0x31);
    out.extend_from_slice(generation.as_slice());
    push_be(&mut out, expiry, 8);
    assert(out@ =~= header_bytes(generation@, expiry as nat));
    let a = aad(out.as_slice(), set, name);
    match seal(key, nonce, plaintext, a.as_slice()) {
        Ok(sealed) => {
            proof {
                lemma_file_parts(generation@, expiry as nat, nonce@, sealed@);
            }
            out.extend_from_slice(nonce.as_slice());
            out.extend_from_slice(sealed.as_slice());
            assert(out@ =~= header_bytes(generation@, expiry as nat) + nonce@ + sealed@);
            Ok(out)
        },
        Err(Refusal::KeyLength) => Err("bad key length".to_owned()),
        Err(Refusal::Message) => Err("encryption failed".to_owned()),
    }
}

/// Decrypts a file. What comes out is a secret that encrypts to this very file,
/// under the same key and names and with the file's own header and nonce.
pub fn decrypt(key: &[u8], file: &[u8], set: &str, name: &str) -> (r: Result<Secret, String>)
    requires
        !overruns(file@.len() - 68),
    ensures
        match r {
            Ok(secret) => decrypted(key@, file@, set@, name@) == Ok::<Seq<u8>, Seq<char>>(secret@),
            Err(e) => decrypted(key@, file@, set@, name@) == Err::<Seq<u8>, Seq<char>>(e@),
        },
        r matches Ok(secret) ==> encrypted(
            key@,
            generation_of(file@),
            expiry_of(file@),
            set@,
            name@,
            secret@,
            file@.subrange(28, 52),
        ) == Ok::<Seq<u8>, Seq<char>>(file@),
{
    match parse_header(file) {
        Ok(_) => {},
        Err(e) => {
            return Err(e);
        },
    }
    let mut nonce: [u8; 24] = [0; 24];
    let mut i: usize = 0;
    while i < NONCE_LEN
        invariant
            i <= NONCE_LEN,
            file@.len() >= HEADER_LEN + NONCE_LEN,
            forall|k: int| 0 <= k < i ==> nonce@[k] == file@[28 + k],
        decreases NONCE_LEN - i,
    {
        nonce[i] = file[HEADER_LEN + i];
        i = i + 1;
    }
    assert(nonce@ =~= file@.subrange(28, 52));
    let header = vstd::slice::slice_subrange(file, 0, HEADER_LEN);
    let sealed = vstd::slice::slice_subrange(file, HEADER_LEN + NONCE_LEN, file.len());
    assert(header@ =~= file@.take(28));
    assert(sealed@ =~= file@.skip(52));
    let a = aad(header, set, name);
    match open(key, &nonce, sealed, a.as_slice()) {
        Ok(plaintext) => {
            proof {
                lemma_header_bytes(file@);
                assert(file@ =~= file@.take(28) + file@.subrange(28, 52) + file@.skip(52));
            }
            Ok(Secret(plaintext))
        },
        Err(Refusal::KeyLength) => Err("bad key length".to_owned()),
        Err(Refusal::Message) => Err(
            "decryption failed: wrong key, or the file was modified or moved".to_owned(),
        ),
    }
}

/// Bytes are those of the number that they hold.
proof fn lemma_be_bytes_of(bytes: Seq<u8>)
    ensures
        be_bytes(be_value(bytes), bytes.len()) == bytes,
    decreases bytes.len(),
{
    if bytes.len() > 0 {
        lemma_be_bytes_of(bytes.drop_last());
        let front = be_value(bytes.drop_last());
        let d = bytes.last() as nat;
        assert((front * 256 + d) / 256 == front);
        assert((front * 256 + d) % 256 == d);
        assert(be_bytes(be_value(bytes), bytes.len()) =~= bytes);
    } else {
        assert(be_bytes(0, 0) =~= bytes);
    }
}

/// A file's header is made of its generation and its expiry.
proof fn lemma_header_bytes(file: Seq<u8>)
    requires
        is_file(file),
    ensures
        file.take(28) == header_bytes(generation_of(file), expiry_of(file)),
{
    lemma_be_bytes_of(file.subrange(20, 28));
    let made = header_bytes(generation_of(file), expiry_of(file));
    assert forall|i: int| 0 <= i < 28 implies file.take(28)[i] == made[i] by {
        if i < 4 {
            assert(file.take(4)[i] == file[i]);
        } else if i >= 20 {
            assert(file.subrange(20, 28)[i - 20] == file[i]);
        }
    }
    assert(file.take(28) =~= made);
}

/// Two sequences cut at their first zero byte agree on both parts.
proof fn lemma_cut_at_zero(a: Seq<u8>, x: Seq<u8>, b: Seq<u8>, y: Seq<u8>)
    requires
        !a.contains(0),
        !b.contains(0),
        a + seq![0u8] + x == b + seq![0u8] + y,
    ensures
        a == b,
        x == y,
{
    let left = a + seq![0u8] + x;
    let right = b + seq![0u8] + y;
    if a.len() < b.len() {
        assert(left[a.len() as int] == 0);
        assert(b.contains(b[a.len() as int]));
        assert(false);
    }
    if b.len() < a.len() {
        assert(right[b.len() as int] == 0);
        assert(a.contains(a[b.len() as int]));
        assert(false);
    }
    assert forall|i: int| 0 <= i < a.len() implies a[i] == b[i] by {
        assert(left[i] == a[i] && right[i] == b[i]);
    }
    assert(a =~= b);
    assert(left.skip(a.len() as int + 1) =~= x);
    assert(right.skip(b.len() as int + 1) =~= y);
}

/// The associated data name the header, the keyset and the key: two of these triples
/// share them exactly if they are the same, for headers of one length and keyset names
/// without a NUL character.
pub proof fn law_aad_injective(
    header1: Seq<u8>,
    set1: Seq<char>,
    name1: Seq<char>,
    header2: Seq<u8>,
    set2: Seq<char>,
    name2: Seq<char>,
)
    requires
        header1.len() == header2.len(),
        !set1.contains('\0'),
        !set2.contains('\0'),
    ensures
        aad_bytes(header1, set1, name1) == aad_bytes(header2, set2, name2) <==> header1 == header2
            && set1 == set2 && name1 == name2,
{
    let a = aad_bytes(header1, set1, name1);
    let b = aad_bytes(header2, set2, name2);
    if a == b {
        let n = header1.len() as int;
        assert(a.take(n) =~= header1);
        assert(b.take(n) =~= header2);
        let x = encode_utf8(set1) + seq![0u8] + encode_utf8(name1);
        let y = encode_utf8(set2) + seq![0u8] + encode_utf8(name2);
        assert(a.skip(n + 1) =~= x);
        assert(b.skip(n + 1) =~= y);
        text::lemma_ascii_byte(set1, '\0');
        text::lemma_ascii_byte(set2, '\0');
        lemma_cut_at_zero(
            encode_utf8(set1),
            encode_utf8(name1),
            encode_utf8(set2),
            encode_utf8(name2),
        );
        text::lemma_encode_injective(set1, set2);
        text::lemma_encode_injective(name1, name2);
    }
}

/// A file that was sealed for one keyset and key, and whose header was then
/// changed or which was moved to another keyset or key, opens only if the AEAD
/// accepts sealed bytes with associated data that they were not sealed with.
pub proof fn law_moved_file(
    key: Seq<u8>,
    header: Seq<u8>,
    set: Seq<char>,
    name: Seq<char>,
    plaintext: Seq<u8>,
    nonce: Seq<u8>,
    new_header: Seq<u8>,
    new_set: Seq<char>,
    new_name: Seq<char>,
)
    requires
        header.len() == HEADER_LEN,
        new_header.len() == HEADER_LEN,
        nonce.len() == NONCE_LEN,
        !set.contains('\0'),
        !new_set.contains('\0'),
        new_header != header || new_set != set || new_name != name,
        decrypted(
            key,
            new_header + nonce + aead_seal(key, nonce, plaintext, aad_bytes(header, set, name)),
            new_set,
            new_name,
        ) is Ok,
    ensures
        aad_bytes(new_header, new_set, new_name) != aad_bytes(header, set, name),
        aead_open(
            key,
            nonce,
            aead_seal(key, nonce, plaintext, aad_bytes(header, set, name)),
            aad_bytes(new_header, new_set, new_name),
        ) is Some,
{
    let sealed = aead_seal(key, nonce, plaintext, aad_bytes(header, set, name));
    let file = new_header + nonce + sealed;
    assert(file.take(28) =~= new_header);
    assert(file.subrange(28, 52) =~= nonce);
    assert(file.skip(52) =~= sealed);
    if aad_bytes(new_header, new_set, new_name) == aad_bytes(header, set, name) {
        law_aad_injective(new_header, new_set, new_name, header, set, name);
    }
}

/// Distinct generations have distinct headers, and so have distinct expiries: the
/// header of a file determines both.
pub proof fn law_header_injective(
    generation1: Seq<u8>,
    expiry1: nat,
    generation2: Seq<u8>,
    expiry2: nat,
)
    requires
        generation1.len() == GEN_LEN,
        generation2.len() == GEN_LEN,
        expiry1 <= u64::MAX,
        expiry2 <= u64::MAX,
        header_bytes(generation1, expiry1) == header_bytes(generation2, expiry2),
    ensures
        generation1 == generation2,
        expiry1 == expiry2,
{
    let nonce = Seq::new(24, |i: int| 0u8);
    lemma_file_parts(generation1, expiry1, nonce, Seq::empty());
    lemma_file_parts(generation2, expiry2, nonce, Seq::empty());
}

/// Different bytes have different hexadecimal digits.
proof fn lemma_hex_byte(a: u8, b: u8)
    requires
        hex_digit(a / 16) == hex_digit(b / 16),
        hex_digit(a % 16) == hex_digit(b % 16),
    ensures
        a == b,
{
}

/// Different bytes are written differently in hexadecimal.
pub proof fn law_hex_injective(a: Seq<u8>, b: Seq<u8>)
    requires
        hex_text(a) == hex_text(b),
    ensures
        a == b,
{
    assert(hex_text(a).len() == 2 * a.len());
    assert(hex_text(b).len() == 2 * b.len());
    assert forall|i: int| 0 <= i < a.len() implies a[i] == b[i] by {
        assert((2 * i) / 2 == i && (2 * i + 1) / 2 == i);
        assert(hex_text(a)[2 * i] == hex_digit(a[i] / 16));
        assert(hex_text(b)[2 * i] == hex_digit(b[i] / 16));
        assert(hex_text(a)[2 * i + 1] == hex_digit(a[i] % 16));
        assert(hex_text(b)[2 * i + 1] == hex_digit(b[i] % 16));
        lemma_hex_byte(a[i], b[i]);
    }
    assert(a =~= b);
}

/// Each byte is two digits in hexadecimal, the upper half first, and small letters stand
/// for those above nine.
pub proof fn law_hex(bytes: Seq<u8>, i: int)
    requires
        0 <= i < bytes.len(),
    ensures
        hex_text(bytes).len() == bytes.len() + bytes.len(),
        hex_text(bytes)[i + i] == "0123456789abcdef"@[bytes[i] as int / 16],
        hex_text(bytes)[i + i + 1] == "0123456789abcdef"@[bytes[i] as int % 16],
{
    reveal_strlit("0123456789abcdef");
    let d = "0123456789abcdef"@;
    assert(d[0] == '0' && d[1] == '1' && d[2] == '2' && d[3] == '3' && d[4] == '4' && d[5] == '5');
    assert(d[6] == '6' && d[7] == '7' && d[8] == '8' && d[9] == '9' && d[10] == 'a');
    assert(d[11] == 'b' && d[12] == 'c' && d[13] == 'd' && d[14] == 'e' && d[15] == 'f');
    assert((2 * i) / 2 == i && (2 * i + 1) / 2 == i);
    assert(hex_text(bytes)[2 * i] == hex_digit(bytes[i] / 16));
    assert(hex_text(bytes)[2 * i + 1] == hex_digit(bytes[i] % 16));
}

/// The first bytes of a number count for more: each is worth as much as the byte after it
/// would be two hundred and fifty-six times.
pub proof fn law_be_value(a: Seq<u8>, b: Seq<u8>, x: u8)
    ensures
        be_value(seq![x]) == x,
        be_value(a + b) == be_value(a) * vstd::arithmetic::power::pow(256, b.len()) + be_value(b),
    decreases b.len(),
{
    assert(seq![x].drop_last() =~= Seq::<u8>::empty());
    assert(be_value(Seq::<u8>::empty()) == 0);
    if b.len() == 0 {
        assert(a + b =~= a);
        vstd::arithmetic::power::lemma_pow0(256);
    } else {
        let less = b.drop_last();
        law_be_value(a, less, x);
        assert((a + b).drop_last() =~= a + less);
        assert((a + b).last() == b.last());
        vstd::arithmetic::power::lemma_pow_adds(256, less.len(), 1);
        vstd::arithmetic::power::lemma_pow1(256);
        let v = be_value(a) as int;
        let p = vstd::arithmetic::power::pow(256, less.len());
        assert(vstd::arithmetic::power::pow(256, b.len()) == p * 256);
        assert((v * p) * 256 == v * (p * 256)) by (nonlinear_arith);
    }
}

/// A file is known by its first four bytes and its length, and what follows them is the
/// generation and then the expiry, whatever comes behind.
pub proof fn law_file(generation: Seq<u8>, expiry: Seq<u8>, rest: Seq<u8>, other: Seq<u8>)
    requires
        generation.len() == 16,
        expiry.len() == 8,
    ensures
        ({
            let file = seq![0x54u8, 0x4b, 0x59, 0x31] + generation + expiry + rest;
            &&& is_file(file) <==> rest.len() >= 24
            &&& generation_of(file) == generation
            &&& expiry_of(file) == be_value(expiry)
        }),
        is_file(other) ==> other.len() >= 52 && other[0] == 0x54 && other[1] == 0x4b && other[2]
            == 0x59 && other[3] == 0x31,
        other.len() >= 52 && other[0] == 0x54 && other[1] == 0x4b && other[2] == 0x59 && other[3]
            == 0x31 ==> is_file(other),
{
    let file = seq![0x54u8, 0x4b, 0x59, 0x31] + generation + expiry + rest;
    assert(file.take(4) =~= magic());
    assert(generation_of(file) =~= generation);
    assert(file.subrange(20, 28) =~= expiry);
    if is_file(other) {
        assert(other.take(4)[0] == 0x54 && other.take(4)[1] == 0x4b);
        assert(other.take(4)[2] == 0x59 && other.take(4)[3] == 0x31);
    }
    if other.len() >= 52 && other[0] == 0x54 && other[1] == 0x4b && other[2] == 0x59 && other[3]
        == 0x31 {
        assert(other.take(4) =~= magic());
    }
}

/// What the associated data are: the header, the keyset's name and the key's, with a NUL
/// byte before each name.
pub proof fn law_aad(header: Seq<u8>, set: Seq<char>, name: Seq<char>)
    ensures
        ({
            let a = aad_bytes(header, set, name);
            let n = header.len() as int;
            let m = n + 1 + encode_utf8(set).len();
            &&& a.take(n) == header
            &&& a[n] == 0
            &&& a.subrange(n + 1, m) == encode_utf8(set)
            &&& a[m] == 0
            &&& a.skip(m + 1) == encode_utf8(name)
        }),
{
    let a = aad_bytes(header, set, name);
    let n = header.len() as int;
    let m = n + 1 + encode_utf8(set).len();
    assert(a.take(n) =~= header);
    assert(a.subrange(n + 1, m) =~= encode_utf8(set));
    assert(a.skip(m + 1) =~= encode_utf8(name));
}

/// A secret is encrypted under any key of 32 bytes, whatever its names, unless it is too
/// long: the file is the header with its generation and expiry, the nonce, and the secret
/// sealed under that key and nonce together with the header and the names.
pub proof fn law_encrypted(
    key: Seq<u8>,
    generation: Seq<u8>,
    expiry: nat,
    set: Seq<char>,
    name: Seq<char>,
    plaintext: Seq<u8>,
    nonce: Seq<u8>,
)
    requires
        generation.len() == 16,
        nonce.len() == 24,
        expiry <= u64::MAX,
    ensures
        encrypted(key, generation, expiry, set, name, plaintext, nonce) is Ok <==> key.len() == 32
            && !too_long(plaintext.len() as int),
        encrypted(key, generation, expiry, set, name, plaintext, nonce) matches Ok(file) ==> {
            &&& is_file(file)
            &&& generation_of(file) == generation
            &&& expiry_of(file) == expiry
            &&& file.subrange(28, 52) == nonce
            &&& file.skip(52) == aead_seal(
                key,
                nonce,
                plaintext,
                aad_bytes(file.take(28), set, name),
            )
        },
{
    let header = header_bytes(generation, expiry);
    let sealed = aead_seal(key, nonce, plaintext, aad_bytes(header, set, name));
    lemma_file_parts(generation, expiry, nonce, sealed);
}

/// A file is decrypted with a key of 32 bytes exactly if what is sealed in it opens under
/// that key and its nonce, together with its header and the names, and then to what that
/// opens to.
pub proof fn law_decrypted(key: Seq<u8>, file: Seq<u8>, set: Seq<char>, name: Seq<char>)
    requires
        is_file(file),
    ensures
        key.len() != 32 ==> decrypted(key, file, set, name) is Err,
        key.len() == 32 ==> match aead_open(
            key,
            file.subrange(28, 52),
            file.skip(52),
            aad_bytes(file.take(28), set, name),
        ) {
            Some(plaintext) => decrypted(key, file, set, name) == Ok::<Seq<u8>, Seq<char>>(
                plaintext,
            ),
            None => decrypted(key, file, set, name) is Err,
        },
{
}

/// The cipher has a key stream of 2^32-1 blocks of 64 bytes, of which the first is not for
/// the message: what needs as many blocks as that, or more, is refused, and only what is
/// shorter than that and needs the last block is left out.
pub proof fn law_lengths(n: nat)
    ensures
        too_long(n as int) <==> n >= 64 * 0xffff_ffff,
        overruns(n as int) <==> 64 * 0xffff_fffe < n < 64 * 0xffff_ffff,
{
}

} // verus!
