//! Sealing the entries of a keyset into the bytes of its files.
use vstd::prelude::*;
use vstd::string::*;
use crate::errors;
use crate::errors::OsError;
use crate::parse;
use crate::parse::Entry;
use crate::secret::Secret;
use crate::vault;
use crate::vault::Header;

verus! {

/// A file of a keyset: the name of its key and its bytes.
pub type File = (Seq<char>, Seq<u8>);

/// The files that a list of names and bytes holds.
pub open spec fn files_of(list: Seq<(String, Vec<u8>)>) -> Seq<File> {
    list.map_values(|f: (String, Vec<u8>)| (f.0@, f.1@))
}

/// Nonces that were drawn, and why no more could be.
pub struct Draws {
    pub nonces: Vec<[u8; 24]>,
    pub failed: Option<OsError>,
}

impl Draws {
    /// Whether there is a nonce, or a reason that there is none, for each of `n` files.
    pub open spec fn cover(self, n: nat) -> bool {
        self.nonces@.len() >= n || self.failed is Some
    }
}

/// The file that holds the entry at `i`, or why there is none.
pub open spec fn sealed_entry(
    key: Seq<u8>,
    header: Header,
    set: Seq<char>,
    list: Seq<Entry>,
    draws: Draws,
    i: int,
) -> Result<Seq<u8>, Seq<char>> {
    if i < draws.nonces@.len() {
        vault::encrypted(
            key,
            header.generation@,
            header.expiry as nat,
            set,
            list[i].0,
            list[i].1,
            draws.nonces@[i]@,
        )
    } else {
        Err(errors::os_message("random nonce"@, draws.failed->0))
    }
}

/// The files that hold the entries from `i` on, or what went wrong first.
pub open spec fn sealed_entries(
    key: Seq<u8>,
    header: Header,
    set: Seq<char>,
    list: Seq<Entry>,
    draws: Draws,
    i: int,
) -> Result<Seq<File>, Seq<char>>
    decreases list.len() - i,
{
    if i >= list.len() {
        Ok(Seq::empty())
    } else {
        match sealed_entry(key, header, set, list, draws, i) {
            Err(e) => Err(e),
            Ok(bytes) => match sealed_entries(key, header, set, list, draws, i + 1) {
                Err(e) => Err(e),
                Ok(rest) => Ok(seq![(list[i].0, bytes)] + rest),
            },
        }
    }
}

/// Whether a file holds an entry: it decrypts to the entry's value, under the key and
/// the names of the keyset and the entry, and has the given header.
pub open spec fn holds(
    key: Seq<u8>,
    header: Header,
    set: Seq<char>,
    entry: Entry,
    file: Seq<u8>,
) -> bool {
    &&& vault::is_file(file)
    &&& vault::generation_of(file) == header.generation@
    &&& vault::expiry_of(file) == header.expiry
    &&& vault::decrypted(key, file, set, entry.0) == Ok::<Seq<u8>, Seq<char>>(entry.1)
}

/// Whether files hold entries, each its own.
pub open spec fn hold_all(
    key: Seq<u8>,
    header: Header,
    set: Seq<char>,
    entries: Seq<Entry>,
    files: Seq<File>,
) -> bool {
    files.len() == entries.len() && forall|i: int|
        0 <= i < files.len() ==> (#[trigger] files[i]).0 == entries[i].0 && holds(
            key,
            header,
            set,
            entries[i],
            files[i].1,
        )
}

/// Whether values can be sealed, or are refused, without the key stream running out.
pub open spec fn can_seal(list: Seq<(String, Secret)>) -> bool {
    forall|i: int|
        0 <= i < list.len() ==> !vault::overruns((#[trigger] list[i]).1@.len() as int)
            && list[i].1@.len() + 68 <= isize::MAX
}

/// Encrypts one secret into the bytes of its file.
fn seal_file(
    key: &[u8],
    header: &Header,
    set: &str,
    entries: &Vec<(String, Secret)>,
    draws: &Draws,
    i: usize,
) -> (r: Result<Vec<u8>, String>)
    requires
        i < entries@.len(),
        draws.cover(entries@.len()),
        can_seal(entries@),
    ensures
        match r {
            Ok(bytes) => sealed_entry(
                key@,
                *header,
                set@,
                parse::entries(entries@),
                *draws,
                i as int,
            ) == Ok::<Seq<u8>, Seq<char>>(bytes@),
            Err(e) => sealed_entry(
                key@,
                *header,
                set@,
                parse::entries(entries@),
                *draws,
                i as int,
            ) == Err::<Seq<u8>, Seq<char>>(e@),
        },
        r matches Ok(bytes) ==> holds(
            key@,
            *header,
            set@,
            parse::entries(entries@)[i as int],
            bytes@,
        ),
{
    let ghost all = parse::entries(entries@);
    assert(all[i as int] == (entries@[i as int].0@, entries@[i as int].1@));
    if i < draws.nonces.len() {
        vault::encrypt(
            key,
            &header.generation,
            header.expiry,
            set,
            entries[i].0.as_str(),
            entries[i].1.0.as_slice(),
            &draws.nonces[i],
        )
    } else {
        match &draws.failed {
            Some(e) => Err(errors::os_err("random nonce", e)),
            None => vstd::pervasive::unreached(),
        }
    }
}

/// Encrypts each entry into the bytes of its file, which holds the entry.
pub fn seal_files(
    key: &[u8],
    header: &Header,
    set: &str,
    entries: &Vec<(String, Secret)>,
    draws: &Draws,
) -> (r: Result<Vec<(String, Vec<u8>)>, String>)
    requires
        draws.cover(entries@.len()),
        can_seal(entries@),
    ensures
        match r {
            Ok(files) => sealed_entries(
                key@,
                *header,
                set@,
                parse::entries(entries@),
                *draws,
                0,
            ) == Ok::<Seq<File>, Seq<char>>(files_of(files@)),
            Err(e) => sealed_entries(
                key@,
                *header,
                set@,
                parse::entries(entries@),
                *draws,
                0,
            ) == Err::<Seq<File>, Seq<char>>(e@),
        },
        r matches Ok(files) ==> hold_all(
            key@,
            *header,
            set@,
            parse::entries(entries@),
            files_of(files@),
        ),
{
    let ghost all = parse::entries(entries@);
    let mut files: Vec<(String, Vec<u8>)> = Vec::new();
    let mut i: usize = 0;
    proof {
        assert(files_of(files@) =~= Seq::<File>::empty());
        match sealed_entries(key@, *header, set@, all, *draws, 0) {
            Ok(list) => assert(files_of(files@) + list =~= list),
            Err(_) => {},
        }
    }
    while i < entries.len()
        invariant
            i <= entries@.len(),
            all == parse::entries(entries@),
            draws.cover(entries@.len()),
            can_seal(entries@),
            hold_all(key@, *header, set@, all.take(i as int), files_of(files@)),
            sealed_entries(key@, *header, set@, all, *draws, 0) == match sealed_entries(
                key@,
                *header,
                set@,
                all,
                *draws,
                i as int,
            ) {
                Ok(rest) => Ok::<Seq<File>, Seq<char>>(files_of(files@) + rest),
                Err(e) => Err(e),
            },
        decreases entries@.len() - i,
    {
        match seal_file(key, header, set, entries, draws, i) {
            Ok(bytes) => {
                let ghost old_files = files@;
                let name = entries[i].0.as_str().to_owned();
                let ghost file = (name@, bytes@);
                files.push((name, bytes));
                proof {
                    assert(all[i as int].0 == file.0);
                    assert(files_of(files@) =~= files_of(old_files).push(file));
                    assert forall|k: int| 0 <= k < files@.len() implies (
                    #[trigger] files_of(files@)[k]).0 == all.take(i + 1)[k].0 && holds(
                        key@,
                        *header,
                        set@,
                        all.take(i + 1)[k],
                        files_of(files@)[k].1,
                    ) by {
                        if k < i {
                            assert(files_of(files@)[k] == files_of(old_files)[k]);
                            assert(all.take(i + 1)[k] == all.take(i as int)[k]);
                        }
                    }
                    match sealed_entries(key@, *header, set@, all, *draws, i + 1) {
                        Ok(rest) => assert(files_of(files@) + rest =~= files_of(old_files) + (seq![
                            file,
                        ] + rest)),
                        Err(_) => {},
                    }
                }
            },
            Err(e) => {
                return Err(e);
            },
        }
        i = i + 1;
    }
    assert(files_of(files@) + Seq::<File>::empty() =~= files_of(files@));
    assert(all.take(i as int) =~= all);
    Ok(files)
}

/// Every keyset can be sealed whose values are not too long, under a key of 32 bytes and
/// with a nonce for each: each entry gets a file under its own name, with its own nonce,
/// the given header, and its value sealed for its own name.
pub proof fn law_seals(
    key: Seq<u8>,
    header: Header,
    set: Seq<char>,
    list: Seq<Entry>,
    draws: Draws,
    i: int,
)
    requires
        0 <= i <= list.len(),
        key.len() == 32,
        draws.nonces@.len() >= list.len(),
        forall|k: int|
            0 <= k < list.len() ==> !vault::too_long((#[trigger] list[k]).1.len() as int),
    ensures
        sealed_entries(key, header, set, list, draws, i) matches Ok(files) && files.len()
            == list.len() - i && forall|k: int|
            i <= k < list.len() ==> {
                let file = (#[trigger] files[k - i]).1;
                &&& files[k - i].0 == list[k].0
                &&& vault::is_file(file)
                &&& vault::generation_of(file) == header.generation@
                &&& vault::expiry_of(file) == header.expiry
                &&& file.subrange(28, 52) == draws.nonces@[k]@
                &&& file.skip(52) == vault::aead_seal(
                    key,
                    draws.nonces@[k]@,
                    list[k].1,
                    vault::aad_bytes(file.take(28), set, list[k].0),
                )
            },
    decreases list.len() - i,
{
    if i < list.len() {
        law_seals(key, header, set, list, draws, i + 1);
        assert(!vault::too_long(list[i].1.len() as int));
        vault::law_encrypted(
            key,
            header.generation@,
            header.expiry as nat,
            set,
            list[i].0,
            list[i].1,
            draws.nonces@[i]@,
        );
        let rest = sealed_entries(key, header, set, list, draws, i + 1)->Ok_0;
        let files = sealed_entries(key, header, set, list, draws, i)->Ok_0;
        assert forall|k: int| i <= k < list.len() implies {
            let file = (#[trigger] files[k - i]).1;
            &&& files[k - i].0 == list[k].0
            &&& vault::is_file(file)
            &&& vault::generation_of(file) == header.generation@
            &&& vault::expiry_of(file) == header.expiry
            &&& file.subrange(28, 52) == draws.nonces@[k]@
            &&& file.skip(52) == vault::aead_seal(
                key,
                draws.nonces@[k]@,
                list[k].1,
                vault::aad_bytes(file.take(28), set, list[k].0),
            )
        } by {
            if k > i {
                assert(files[k - i] == rest[k - (i + 1)]);
            }
        }
    }
}

/// The files that are written are those that were sealed.
pub proof fn law_files(list: Seq<(String, Vec<u8>)>, i: int)
    requires
        0 <= i < list.len(),
    ensures
        files_of(list).len() == list.len(),
        files_of(list)[i] == (list[i].0@, list[i].1@),
{
}

/// Where there is no nonce for an entry, why there is none is told, and nothing is sealed
/// under a key of another length.
pub proof fn law_not_sealed(
    key: Seq<u8>,
    header: Header,
    set: Seq<char>,
    list: Seq<Entry>,
    draws: Draws,
    e: OsError,
    i: int,
)
    requires
        0 <= i < list.len(),
    ensures
        key.len() != 32 ==> sealed_entries(key, header, set, list, draws, i) is Err,
        key.len() == 32 && draws.nonces@.len() < list.len() && i <= draws.nonces@.len()
            && draws.failed == Some(e) && (forall|k: int|
            i <= k < list.len() ==> !vault::too_long((#[trigger] list[k]).1.len() as int))
            ==> sealed_entries(key, header, set, list, draws, i) == Err::<Seq<File>, Seq<char>>(
            errors::os_message("random nonce"@, e),
        ),
    decreases list.len() - i,
{
    if i < draws.nonces@.len() {
        vault::law_encrypted(
            key,
            header.generation@,
            header.expiry as nat,
            set,
            list[i].0,
            list[i].1,
            draws.nonces@[i]@,
        );
        if i + 1 < list.len() {
            law_not_sealed(key, header, set, list, draws, e, i + 1);
        }
    }
}

} // verus!
