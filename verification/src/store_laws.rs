//! What holds of the scripts that store, merge and replace, whatever they are given.
use vstd::prelude::*;
use vstd::string::*;
use vstd::utf8::*;
use crate::errors::OsError;
use crate::keyring;
use crate::names;
use crate::parse;
use crate::parse::Entry;
use crate::scope;
use crate::scope::Scope;
use crate::script;
use crate::script::{Deed, StageModel};
use crate::seal::File;
use crate::store;
use crate::sys;
use crate::sys::{Call, KeyId};
use crate::text;
use crate::vault;
use crate::vault::Header;

verus! {

/// Whether a path is `place`, or is below it.
pub open spec fn within(path: Seq<char>, place: Seq<char>) -> bool {
    path == place || (place + "/"@).is_prefix_of(path)
}

/// Whether a deed makes, changes, moves or removes what is at a place or below it.
pub open spec fn touches(deed: Deed, place: Seq<char>) -> bool {
    match deed {
        Deed::MakeDir { path, .. } => within(path, place),
        Deed::RemoveTree { path } => within(path, place) || within(place, path),
        Deed::RemoveDir { path } => within(path, place),
        Deed::RemoveFile { path } => within(path, place),
        Deed::WriteNew { path, .. } => within(path, place),
        Deed::Rename { from, to } => within(from, place) || within(place, from) || within(to, place)
            || within(place, to),
        _ => false,
    }
}

/// What is within a place is within all that the place is within.
pub proof fn lemma_within_chain(a: Seq<char>, b: Seq<char>, c: Seq<char>)
    requires
        within(a, b),
        within(b, c),
    ensures
        within(a, c),
{
    if a != b && b != c {
        let x = b + "/"@;
        let y = c + "/"@;
        assert forall|i: int| 0 <= i < y.len() implies y[i] == a[i] by {
            assert(y[i] == b.subrange(0, y.len() as int)[i]);
            assert(x[i] == a.subrange(0, x.len() as int)[i]);
        }
        assert(y =~= a.subrange(0, y.len() as int));
    }
}

/// Of two places that a path is within, one is within the other.
pub proof fn lemma_within_both(path: Seq<char>, a: Seq<char>, b: Seq<char>)
    requires
        within(path, a),
        within(path, b),
    ensures
        within(a, b) || within(b, a),
{
    if a.len() < b.len() {
        let x = a + "/"@;
        reveal_strlit("/");
        assert forall|i: int| 0 <= i < x.len() implies x[i] == b[i] by {
            assert(x[i] == path.subrange(0, x.len() as int)[i]);
            if path != b {
                assert((b + "/"@)[i] == path.subrange(0, (b + "/"@).len() as int)[i]);
            }
        }
        assert(x =~= b.subrange(0, x.len() as int));
    } else if b.len() < a.len() {
        let x = b + "/"@;
        reveal_strlit("/");
        assert forall|i: int| 0 <= i < x.len() implies x[i] == a[i] by {
            assert(x[i] == path.subrange(0, x.len() as int)[i]);
            if path != a {
                assert((a + "/"@)[i] == path.subrange(0, (a + "/"@).len() as int)[i]);
            }
        }
        assert(x =~= a.subrange(0, x.len() as int));
    } else {
        assert forall|i: int| 0 <= i < a.len() implies a[i] == b[i] by {
            if path != a {
                assert((a + "/"@)[i] == path.subrange(0, (a + "/"@).len() as int)[i]);
            }
            if path != b {
                assert((b + "/"@)[i] == path.subrange(0, (b + "/"@).len() as int)[i]);
            }
        }
        assert(a =~= b);
    }
}

/// A deed that touches what is within a place touches the place.
pub proof fn lemma_touches_place(deed: Deed, path: Seq<char>, place: Seq<char>)
    requires
        within(path, place),
        touches(deed, path),
    ensures
        touches(deed, place),
{
    match deed {
        Deed::MakeDir { path: p, .. } => lemma_within_chain(p, path, place),
        Deed::RemoveDir { path: p } => lemma_within_chain(p, path, place),
        Deed::RemoveFile { path: p } => lemma_within_chain(p, path, place),
        Deed::WriteNew { path: p, .. } => lemma_within_chain(p, path, place),
        Deed::RemoveTree { path: p } => lemma_touched_tree(p, path, place),
        Deed::Rename { from, to } => {
            if within(from, path) || within(path, from) {
                lemma_touched_tree(from, path, place);
            } else {
                lemma_touched_tree(to, path, place);
            }
        },
        _ => {},
    }
}

/// A tree that what is within a place is in, or is within it, is so to the place too.
proof fn lemma_touched_tree(tree: Seq<char>, path: Seq<char>, place: Seq<char>)
    requires
        within(path, place),
        within(tree, path) || within(path, tree),
    ensures
        within(tree, place) || within(place, tree),
{
    if within(tree, path) {
        lemma_within_chain(tree, path, place);
    } else {
        lemma_within_both(path, tree, place);
    }
}

/// Entries of one directory that differ in a character are not within each other.
pub proof fn lemma_differ(dir: Seq<char>, name: Seq<char>, other: Seq<char>, k: int)
    requires
        0 <= k < name.len(),
        k < other.len(),
        name[k] != other[k],
    ensures
        forall|below: Seq<char>|
            !within(#[trigger] (scope::under(dir, name) + below), scope::under(dir, other)),
        !within(scope::under(dir, name), scope::under(dir, other)),
{
    let a = scope::under(dir, name);
    let b = scope::under(dir, other);
    let n = dir.len() as int + "/"@.len() + k;
    assert(a[n] == name[k]);
    assert(b[n] == other[k]);
    assert forall|below: Seq<char>| !within(#[trigger] (a + below), b) by {
        let p = a + below;
        assert(p[n] == a[n]);
        if (b + "/"@).is_prefix_of(p) {
            assert((b + "/"@)[n] == p.subrange(0, (b + "/"@).len() as int)[n]);
        }
    }
    assert(a + Seq::<char>::empty() =~= a);
    assert(!within(a + Seq::<char>::empty(), b));
}

/// Readers never see a half-written keyset: of all that installing does, only the
/// two renames touch the keyset's directory, first the one that moves the old
/// directory away and then the one that moves the new one in, and both come after
/// every file has been written. What undoes it does not touch the directory either.
pub proof fn law_install_swaps(
    scope: Scope,
    set: Seq<char>,
    files: Seq<File>,
    pid: u32,
    undo: Seq<Deed>,
)
    requires
        names::is_set_name(set),
    ensures
        ({
            let stages = store::install_stages(scope, set, files, pid, undo);
            let dest = store::set_path(scope, set);
            let n = files.len() as int;
            let steps = stages[1].steps;
            &&& steps.len() == n + 6
            &&& forall|k: int|
                0 <= k < steps.len() && k != n + 3 && k != n + 4 ==> !touches(
                    (#[trigger] steps[k]).deed,
                    dest,
                )
            &&& forall|k: int|
                0 <= k < n ==> (#[trigger] steps[k + 2]).deed == (Deed::WriteNew {
                    path: scope::under(
                        store::beside(scope, set, ".new-"@, pid),
                        store::file_name(files[k].0),
                    ),
                    mode: script::FILE_MODE,
                    bytes: files[k].1,
                })
            &&& steps[n + 3].deed == (Deed::Rename {
                from: dest,
                to: store::beside(scope, set, ".old-"@, pid),
            })
            &&& steps[n + 3].guard == Some(dest)
            &&& steps[n + 4].deed == (Deed::Rename {
                from: store::beside(scope, set, ".new-"@, pid),
                to: dest,
            })
            &&& steps[n + 4].guard is None
            &&& !touches(stages[1].undo[0], dest)
            &&& !touches(stages[0].steps[0].deed, dest)
        }),
{
    let stages = store::install_stages(scope, set, files, pid, undo);
    let dest = store::set_path(scope, set);
    let tmp = store::beside(scope, set, ".new-"@, pid);
    let steps = stages[1].steps;
    let n = files.len() as int;
    reveal_strlit(".");
    reveal_strlit("/");
    let tmp_name = "."@ + set + ".new-"@ + text::decimal(pid as nat);
    let old_name = "."@ + set + ".old-"@ + text::decimal(pid as nat);
    assert(tmp_name[0] == '.');
    assert(old_name[0] == '.');
    lemma_differ(scope.dir@, tmp_name, set, 0);
    lemma_differ(scope.dir@, set, tmp_name, 0);
    lemma_differ(scope.dir@, old_name, set, 0);
    lemma_differ(scope.dir@, set, old_name, 0);
    let writes = store::write_steps(scope.base@, tmp, files);
    assert forall|k: int| 0 <= k < n implies (#[trigger] steps[k + 2]).deed == (Deed::WriteNew {
        path: scope::under(tmp, store::file_name(files[k].0)),
        mode: script::FILE_MODE,
        bytes: files[k].1,
    }) by {
        assert(steps[k + 2] == writes[k]);
    }
    assert forall|k: int| 0 <= k < steps.len() && k != n + 3 && k != n + 4 implies !touches(
        (#[trigger] steps[k]).deed,
        dest,
    ) by {
        if 2 <= k < n + 2 {
            assert(steps[(k - 2) + 2].deed == (Deed::WriteNew {
                path: scope::under(tmp, store::file_name(files[k - 2].0)),
                mode: script::FILE_MODE,
                bytes: files[k - 2].1,
            }));
            let below = "/"@ + store::file_name(files[k - 2].0);
            assert(scope::under(tmp, store::file_name(files[k - 2].0)) =~= tmp + below);
        }
    }
    // The scope's own directory is neither the keyset's nor below it.
    assert(!within(scope.dir@, dest)) by {
        assert(dest.len() > scope.dir@.len());
        if (dest + "/"@).is_prefix_of(scope.dir@) {
            assert((dest + "/"@).len() <= scope.dir@.len());
        }
    }
}

/// Whatever fails once the encryption key was created, the script undoes the key:
/// where securing it fails it is revoked and unlinked, and where the files cannot be
/// had or installed the keys of its description are dropped, of which it is one.
/// What comes last cannot fail.
pub proof fn law_store_undoes_key(
    scope: Scope,
    set: Seq<char>,
    ttl: Option<u32>,
    id: KeyId,
    generation: Seq<u8>,
    sealed: Result<Seq<File>, Seq<char>>,
    pid: u32,
)
    ensures
        ({
            let stages = store::store_stages(scope, set, ttl, id, generation, sealed, pid);
            let desc = names::key_description(set, generation);
            let drop = Deed::DropKeys { ring: scope.root, prefix: desc, keep: None };
            let last = stages.len() - 1;
            &&& last >= 2
            &&& stages[0].undo.contains(Deed::Revoke { id })
            &&& stages[0].undo.contains(Deed::Unlink { id, ring: sys::SESSION_KEYRING })
            &&& stages[0].undo.contains(Deed::Unlink { id, ring: scope.root })
            &&& forall|i: int| 0 < i < last ==> (#[trigger] stages[i]).undo.contains(drop)
            &&& keyring::is_doomed((id, Some(("user"@, desc))), desc, None)
            &&& stages[last].refusal is None
            &&& forall|k: int|
                0 <= k < stages[last].steps.len() ==> (#[trigger] stages[last].steps[k]).fault
                    is Ignored
        }),
{
    let stages = store::store_stages(scope, set, ttl, id, generation, sealed, pid);
    let desc = names::key_description(set, generation);
    let drop = Deed::DropKeys { ring: scope.root, prefix: desc, keep: None };
    let undo = store::drop_deeds(Some((scope.root, desc)));
    assert(undo[0] == drop);
    assert(undo.contains(drop));
    assert(desc =~= desc.subrange(0, desc.len() as int));
    let first = store::secure_stage(scope, id, ttl).undo;
    assert(first[0] == (Deed::Revoke { id }));
    assert(first[1] == (Deed::Unlink { id, ring: sys::SESSION_KEYRING }));
    assert(first[2] == (Deed::Unlink { id, ring: scope.root }));
    assert(stages[0] == store::secure_stage(scope, id, ttl));
    match sealed {
        Ok(files) => {
            let install = store::install_stages(scope, set, files, pid, undo);
            assert(stages[1] == install[0]);
            assert(stages[2] == install[1]);
            assert(install[1].undo[1] == drop);
        },
        Err(e) => {
            assert(stages[1].undo == undo);
        },
    }
}

/// Storing secures the key before anything else, and drops the older generations
/// after everything else: the script begins with the steps that restrict the key and
/// put it into its keyring, and ends with the one that drops the keyset's other keys.
pub proof fn law_store_order(
    scope: Scope,
    set: Seq<char>,
    ttl: Option<u32>,
    id: KeyId,
    generation: Seq<u8>,
    files: Seq<File>,
    pid: u32,
    there: bool,
)
    ensures
        ({
            let stages = store::store_stages(scope, set, ttl, id, generation, Ok(files), pid);
            let desc = names::key_description(set, generation);
            let undo = store::drop_deeds(Some((scope.root, desc)));
            let install = store::install_stages(scope, set, files, pid, undo);
            script::all_deeds(stages, there) == script::step_deeds(
                store::secure_stage(scope, id, ttl).steps,
                there,
            ) + script::all_deeds(install, there) + seq![
                Deed::DropKeys {
                    ring: scope.root,
                    prefix: names::set_prefix(set),
                    keep: Some(desc),
                },
            ]
        }),
{
    let stages = store::store_stages(scope, set, ttl, id, generation, Ok(files), pid);
    let desc = names::key_description(set, generation);
    let undo = store::drop_deeds(Some((scope.root, desc)));
    let install = store::install_stages(scope, set, files, pid, undo);
    let last = Deed::DropKeys {
        ring: scope.root,
        prefix: names::set_prefix(set),
        keep: Some(desc),
    };
    reveal_with_fuel(script::all_deeds, 5);
    let a = stages.drop_first();
    let b = a.drop_first();
    let c = b.drop_first();
    let d = c.drop_first();
    assert(stages.len() == 4);
    assert(a[0] == install[0]);
    assert(b[0] == install[1]);
    assert(c[0] == stages[3]);
    assert(d.len() == 0);
    assert(install.drop_first()[0] == install[1]);
    assert(install.drop_first().drop_first().len() == 0);
    script::lemma_step_deeds_plain(stages[3].steps, there);
    assert(script::step_deeds(stages[3].steps, there) =~= seq![last]);
    assert(script::all_deeds(install, there) =~= script::step_deeds(install[0].steps, there)
        + script::step_deeds(install[1].steps, there));
    assert(script::all_deeds(stages, there) =~= script::step_deeds(stages[0].steps, there)
        + script::all_deeds(install, there) + seq![last]);
}

/// The key is restricted before it is put into the scope's keyring, and what expires
/// it comes before both.
pub proof fn law_secured_before_linked(scope: Scope, id: KeyId, ttl: Option<u32>, there: bool)
    ensures
        ({
            let done = script::step_deeds(store::secure_stage(scope, id, ttl).steps, there);
            let n: int = if ttl is Some {
                1
            } else {
                0
            };
            &&& ttl matches Some(secs) ==> done[0] == (Deed::SetTimeout { id, secs })
            &&& done[n] == (Deed::SetPerm { id, perm: scope.perm })
            &&& scope.root != sys::SESSION_KEYRING ==> done.len() == n + 3 && done[n + 1] == (
            Deed::Link { id, ring: scope.root }) && done[n + 2] == (Deed::Unlink {
                id,
                ring: sys::SESSION_KEYRING,
            })
            &&& scope.root == sys::SESSION_KEYRING ==> done.len() == n + 1
        }),
{
    let steps = store::secure_stage(scope, id, ttl).steps;
    script::lemma_step_deeds_plain(steps, there);
}

/// The encryption key that was stored is the one that a read searches for: what it is
/// searched for by is the type and the description under which it was added, for its own
/// keyset and generation and for no other, in the keyring that it was added to or is
/// linked into.
pub proof fn law_key_is_found(
    add: Result<Call, OsError>,
    search: Result<Call, OsError>,
    scope: Scope,
    set: Seq<char>,
    generation: Seq<u8>,
    key: Seq<u8>,
    other: Seq<char>,
    other_generation: Seq<u8>,
    id: KeyId,
    ttl: Option<u32>,
    there: bool,
)
    requires
        names::is_set_name(set),
        names::is_set_name(other),
        store::adds(add, set, generation, key),
        keyring::searches(search, scope, other, other_generation),
    ensures
        add matches Ok(Call::AddKey { kind, desc, payload, ring: into }) && search matches Ok(
            Call::Search { command, ring, kind: k, desc: d },
        ) && {
            &&& command == 10
            &&& payload@ == key
            &&& into == -3
            &&& ring == scope.root
            &&& k@ == kind@
            &&& d@ == desc@ <==> set == other && generation == other_generation
            &&& ring == into || script::step_deeds(
                store::secure_stage(scope, id, ttl).steps,
                there,
            ).contains(Deed::Link { id, ring })
        },
{
    names::lemma_description_plain(other, other_generation);
    let a = names::key_description(set, generation);
    let b = names::key_description(other, other_generation);
    let added = encode_utf8(a).push(0);
    let sought = encode_utf8(b).push(0);
    if added == sought {
        assert(added.drop_last() =~= encode_utf8(a));
        assert(sought.drop_last() =~= encode_utf8(b));
        text::lemma_encode_injective(a, b);
        names::law_key_desc_injective(set, generation, other, other_generation);
    }
    law_secured_before_linked(scope, id, ttl, there);
}

/// Once a keyset is stored, its older keys are dropped and the new one is not.
pub proof fn law_older_keys_dropped(
    set: Seq<char>,
    generation: Seq<u8>,
    older: Seq<u8>,
    id: KeyId,
    kind: Seq<char>,
)
    requires
        names::is_set_name(set),
        older != generation,
    ensures
        ({
            let keep = Some(names::key_description(set, generation));
            &&& keyring::is_doomed(
                (id, Some(("user"@, names::key_description(set, older)))),
                names::set_prefix(set),
                keep,
            )
            &&& !keyring::is_doomed(
                (id, Some((kind, names::key_description(set, generation)))),
                names::set_prefix(set),
                keep,
            )
        }),
{
    names::law_set_prefix(set, set, older);
    if names::key_description(set, older) == names::key_description(set, generation) {
        names::law_key_desc_injective(set, older, set, generation);
    }
}

/// The names that no entry has are those that no entry has, in order.
proof fn lemma_others(list: Seq<Seq<char>>, entries: Seq<Entry>)
    ensures
        forall|name: Seq<char>| #[trigger]
            store::others(list, entries).contains(name) <==> list.contains(name)
                && !store::has_entry(entries, name),
        list.no_duplicates() ==> store::others(list, entries).no_duplicates(),
    decreases list.len(),
{
    if list.len() > 0 {
        let less = list.drop_last();
        lemma_others(less, entries);
        let front = store::others(less, entries);
        let all = store::others(list, entries);
        assert(list =~= less.push(list.last()));
        assert forall|name: Seq<char>| #[trigger] all.contains(name) <==> list.contains(name)
            && !store::has_entry(entries, name) by {
            if all.contains(name) {
                let k = choose|k: int| 0 <= k < all.len() && all[k] == name;
                if k < front.len() {
                    assert(front[k] == name);
                    assert(front.contains(name));
                    let i = choose|i: int| 0 <= i < less.len() && less[i] == name;
                    assert(list[i] == name);
                } else {
                    assert(list[list.len() - 1] == name);
                }
            }
            if list.contains(name) && !store::has_entry(entries, name) {
                let i = choose|i: int| 0 <= i < list.len() && list[i] == name;
                if i < less.len() {
                    assert(less[i] == name);
                    assert(front.contains(name));
                    let k = choose|k: int| 0 <= k < front.len() && front[k] == name;
                    assert(all[k] == name);
                } else {
                    assert(all.last() == name);
                    assert(all[all.len() - 1] == name);
                }
            }
        }
        if list.no_duplicates() {
            assert(less.no_duplicates());
            if !store::has_entry(entries, list.last()) {
                assert(!less.contains(list.last())) by {
                    if less.contains(list.last()) {
                        let i = choose|i: int| 0 <= i < less.len() && less[i] == list.last();
                        assert(list[i] == list[list.len() - 1]);
                    }
                }
                assert(!front.contains(list.last()));
                assert forall|i: int, j: int| 0 <= i < j < all.len() implies all[i] != all[j] by {
                    assert(front.contains(front[i]));
                }
            }
        }
    }
}

/// The names of files.
pub open spec fn file_names(files: Seq<File>) -> Seq<Seq<char>> {
    files.map_values(|f: File| f.0)
}

/// A merge keeps every key of the keyset that it does not replace, byte for byte, and
/// adds or replaces those of the input: the keyset then has exactly the keys that it
/// had and the entries', each once.
pub proof fn law_merge_keeps(
    list: Seq<Seq<char>>,
    kept: Seq<File>,
    entries: Seq<Entry>,
    files: Seq<File>,
)
    requires
        list.no_duplicates(),
        parse::is_keyset(entries),
        file_names(kept) == store::others(list, entries),
        files.len() == entries.len(),
        forall|i: int| 0 <= i < files.len() ==> (#[trigger] files[i]).0 == entries[i].0,
    ensures
        ({
            let merged = store::merged_files(kept, Ok(files))->Ok_0;
            &&& forall|i: int| 0 <= i < kept.len() ==> merged[i] == #[trigger] kept[i]
            &&& forall|i: int|
                0 <= i < files.len() ==> merged[kept.len() + i] == #[trigger] files[i]
            &&& file_names(merged).no_duplicates()
            &&& forall|name: Seq<char>| #[trigger]
                file_names(merged).contains(name) <==> list.contains(name) || store::has_entry(
                    entries,
                    name,
                )
        }),
{
    let merged = kept + files;
    lemma_others(list, entries);
    let front = file_names(kept);
    let back = file_names(files);
    assert(file_names(merged) =~= front + back);
    assert forall|name: Seq<char>| back.contains(name) <==> store::has_entry(entries, name) by {
        if back.contains(name) {
            let i = choose|i: int| 0 <= i < back.len() && back[i] == name;
            assert(files[i].0 == entries[i].0);
        }
        if store::has_entry(entries, name) {
            let i = choose|i: int| 0 <= i < entries.len() && (#[trigger] entries[i]).0 == name;
            assert(files[i].0 == name);
            assert(back[i] == name);
        }
    }
    assert forall|name: Seq<char>| #[trigger]
        file_names(merged).contains(name) <==> list.contains(name) || store::has_entry(
            entries,
            name,
        ) by {
        if file_names(merged).contains(name) {
            let k = choose|k: int| 0 <= k < merged.len() && (front + back)[k] == name;
            if k < front.len() {
                assert(front[k] == name);
                assert(front.contains(name));
            } else {
                assert(back[k - front.len()] == name);
                assert(back.contains(name));
            }
        }
        if store::has_entry(entries, name) {
            assert(back.contains(name));
            let k = choose|k: int| 0 <= k < back.len() && back[k] == name;
            assert((front + back)[front.len() + k] == name);
        } else if list.contains(name) {
            assert(front.contains(name));
            let k = choose|k: int| 0 <= k < front.len() && front[k] == name;
            assert((front + back)[k] == name);
        }
    }
    assert forall|i: int, j: int| 0 <= i < j < (front + back).len() implies (front + back)[i] != (
    front + back)[j] by {
        if j < front.len() {
            assert(front[i] != front[j]);
        } else if i < front.len() {
            assert(front.contains(front[i]));
            assert(back.contains(back[j - front.len()]));
        } else {
            let a = i - front.len();
            let b = j - front.len();
            assert(files[a].0 == entries[a].0);
            assert(files[b].0 == entries[b].0);
        }
    }
}

/// Two names in one directory, in the first of which no `/` occurs, are not within
/// each other.
proof fn lemma_siblings_apart(dir: Seq<char>, name: Seq<char>, other: Seq<char>)
    requires
        name != other,
        !name.contains('/'),
    ensures
        !within(scope::under(dir, name), scope::under(dir, other)),
{
    reveal_strlit("/");
    let a = scope::under(dir, name);
    let b = scope::under(dir, other);
    let n = dir.len() as int + 1;
    if a == b {
        assert(a.skip(n) =~= name);
        assert(b.skip(n) =~= other);
    }
    let p = b + "/"@;
    if p.is_prefix_of(a) {
        assert(p[b.len() as int] == '/');
        assert(a.subrange(0, p.len() as int)[b.len() as int] == '/');
        assert(name[b.len() as int - n] == '/');
        assert(false);
    }
}

/// The file name of a key holds no `/`.
proof fn lemma_file_name_flat(key: Seq<char>)
    requires
        parse::is_name(key),
    ensures
        !store::file_name(key).contains('/'),
{
    reveal_strlit(".enc");
    let f = store::file_name(key);
    if f.contains('/') {
        let i = choose|i: int| 0 <= i < f.len() && f[i] == '/';
        if i < key.len() {
            assert(f[i] == key[i]);
            assert(text::is_alnum(key[i]) || key[i] == '_');
        } else {
            assert(f[i] == ".enc"@[i - key.len()]);
        }
        assert(false);
    }
}

/// Replacing one key writes a hidden file beside its own and renames that over it,
/// so that readers see the old file or the new one; and it touches no other key's
/// file.
pub proof fn law_replace_touches_one(
    scope: Scope,
    set: Seq<char>,
    key: Seq<char>,
    other: Seq<char>,
    bytes: Seq<u8>,
    pid: u32,
)
    requires
        parse::is_name(key),
        parse::is_name(other),
    ensures
        ({
            let stage = store::replace_stage(scope, set, key, bytes, pid);
            let place = store::key_path(scope, set, other);
            &&& stage.steps.len() == 3
            &&& !touches(stage.steps[0].deed, place)
            &&& !touches(stage.steps[1].deed, place)
            &&& touches(stage.steps[2].deed, place) <==> key == other
            &&& stage.steps[1].deed matches Deed::WriteNew { path, bytes: b, .. }
                && stage.steps[2].deed == (Deed::Rename {
                from: path,
                to: store::key_path(scope, set, key),
            }) && b == bytes
            &&& forall|i: int|
                0 <= i < stage.undo.len() ==> !touches(#[trigger] stage.undo[i], place)
        }),
{
    let dir = store::set_path(scope, set);
    let name = "."@ + key + ".tmp-"@ + text::decimal(pid as nat);
    reveal_strlit(".");
    assert(name[0] == '.');
    let shown = store::file_name(other);
    assert(shown[0] == other[0]);
    assert(text::is_alnum(other[0]) || other[0] == '_');
    lemma_differ(dir, name, shown, 0);
    lemma_differ(dir, shown, name, 0);
    lemma_file_name_flat(key);
    lemma_file_name_flat(other);
    if key != other {
        if store::file_name(key) == store::file_name(other) {
            let own = store::file_name(key);
            let others = store::file_name(other);
            assert(key =~= own.take(own.len() - names::EXT@.len()));
            assert(other =~= others.take(others.len() - names::EXT@.len()));
        }
        lemma_siblings_apart(dir, store::file_name(key), store::file_name(other));
        lemma_siblings_apart(dir, store::file_name(other), store::file_name(key));
    }
}

/// The same keyset name in two scopes never mixes: no file or directory of a keyset in
/// the user scope is within one in a session's, nor the other way round.
pub proof fn law_scopes_never_mix(
    user: Scope,
    session: Scope,
    base: Seq<char>,
    serial: KeyId,
    set: Seq<char>,
    other: Seq<char>,
    below: Seq<char>,
)
    requires
        scope::is_user(user, base),
        scope::is_session(session, base, serial),
    ensures
        !within(store::set_path(user, set) + below, store::set_path(session, other)),
        !within(store::set_path(session, other) + below, store::set_path(user, set)),
{
    reveal_strlit("user");
    reveal_strlit("session-");
    let a = store::set_path(user, set);
    let b = store::set_path(session, other);
    assert(user.dir@[0] == 'u');
    assert(session.dir@[0] == 's');
    assert(a[0] == 'u');
    assert(b[0] == 's');
    assert((a + below)[0] == 'u');
    assert((b + below)[0] == 's');
    if (b + "/"@).is_prefix_of(a + below) {
        assert((b + "/"@)[0] == (a + below).subrange(0, (b + "/"@).len() as int)[0]);
    }
    if (a + "/"@).is_prefix_of(b + below) {
        assert((a + "/"@)[0] == (b + below).subrange(0, (a + "/"@).len() as int)[0]);
    }
}

/// Whether what a deed makes is for its owner alone: a file of mode 0600, a directory of
/// mode 0700.
pub open spec fn is_private(deed: Deed) -> bool {
    match deed {
        Deed::MakeDir { mode, .. } => mode == 0o700,
        Deed::WriteNew { mode, .. } => mode == 0o600,
        _ => true,
    }
}

/// Whether a stage makes only what is for its owner alone.
pub open spec fn makes_private(stage: StageModel) -> bool {
    &&& forall|k: int| 0 <= k < stage.steps.len() ==> is_private((#[trigger] stage.steps[k]).deed)
    &&& forall|k: int| 0 <= k < stage.undo.len() ==> is_private(#[trigger] stage.undo[k])
}

/// Files are of mode 0600, in directories of mode 0700, whether a keyset is stored,
/// merged into or set a key of: no one but the owner has any right to them.
pub proof fn law_private(
    scope: Scope,
    set: Seq<char>,
    ttl: Option<u32>,
    id: KeyId,
    generation: Seq<u8>,
    sealed: Result<Seq<File>, Seq<char>>,
    files: Seq<File>,
    key: Seq<char>,
    bytes: Seq<u8>,
    pid: u32,
)
    ensures
        ({
            let stored = store::store_stages(scope, set, ttl, id, generation, sealed, pid);
            let merged = store::install_stages(scope, set, files, pid, Seq::empty());
            &&& forall|i: int| 0 <= i < stored.len() ==> makes_private(#[trigger] stored[i])
            &&& forall|i: int| 0 <= i < merged.len() ==> makes_private(#[trigger] merged[i])
            &&& makes_private(store::replace_stage(scope, set, key, bytes, pid))
        }),
        0o600u32 & 0o077 == 0,
        0o700u32 & 0o077 == 0,
{
    assert(0o600u32 & 0o077 == 0) by (bit_vector);
    assert(0o700u32 & 0o077 == 0) by (bit_vector);
    let stored = store::store_stages(scope, set, ttl, id, generation, sealed, pid);
    let desc = names::key_description(set, generation);
    let undo = store::drop_deeds(Some((scope.root, desc)));
    lemma_install_private(scope, set, files, pid, Seq::empty());
    assert(makes_private(store::secure_stage(scope, id, ttl)));
    if let Ok(list) = sealed {
        let install = store::install_stages(scope, set, list, pid, undo);
        lemma_install_private(scope, set, list, pid, undo);
        assert(stored[1] == install[0] && stored[2] == install[1]);
    }
}

/// Installing makes only what is for its owner alone.
proof fn lemma_install_private(
    scope: Scope,
    set: Seq<char>,
    files: Seq<File>,
    pid: u32,
    undo: Seq<Deed>,
)
    requires
        forall|k: int| 0 <= k < undo.len() ==> is_private(#[trigger] undo[k]),
    ensures
        ({
            let stages = store::install_stages(scope, set, files, pid, undo);
            makes_private(stages[0]) && makes_private(stages[1])
        }),
{
    let stages = store::install_stages(scope, set, files, pid, undo);
    let steps = stages[1].steps;
    let n = files.len() as int;
    let tmp = store::beside(scope, set, ".new-"@, pid);
    let writes = store::write_steps(scope.base@, tmp, files);
    assert forall|k: int| 0 <= k < steps.len() implies is_private((#[trigger] steps[k]).deed) by {
        if 2 <= k < n + 2 {
            assert(steps[k] == writes[k - 2]);
        }
    }
    let all = stages[1].undo;
    assert forall|k: int| 0 <= k < all.len() implies is_private(#[trigger] all[k]) by {
        if k > 0 {
            assert(all[k] == undo[k - 1]);
        }
    }
}

/// A merge keeps every key of the keyset that no entry names: a key whose file the
/// directory lists is among those that are kept exactly if it is not among the entries,
/// and as often as it is listed. So a key file that is on disk before a merge is carried
/// over or replaced.
pub proof fn law_merge_keeps_listed(
    listing: Seq<Option<Seq<char>>>,
    list: Seq<Seq<char>>,
    entries: Seq<Entry>,
    key: Seq<char>,
)
    requires
        names::sorted_from(list, names::stems(listing)),
    ensures
        (forall|i: int| 0 <= i < entries.len() ==> (#[trigger] entries[i]).0 != key) ==> (
        store::others(list, entries).contains(key) <==> listing.contains(
            Some(key + seq!['.', 'e', 'n', 'c']),
        )),
        (forall|i: int| 0 <= i < entries.len() ==> (#[trigger] entries[i]).0 != key)
            ==> store::others(list, entries).to_multiset().count(key)
            == listing.to_multiset().count(Some(key + seq!['.', 'e', 'n', 'c'])),
        (exists|i: int| 0 <= i < entries.len() && (#[trigger] entries[i]).0 == key)
            ==> !store::others(list, entries).contains(key),
{
    names::law_key_names(listing, list, key);
    lemma_others(list, entries);
    lemma_others_count(list, entries, key);
}

/// The names that no entry has are as many as there were.
proof fn lemma_others_count(list: Seq<Seq<char>>, entries: Seq<Entry>, key: Seq<char>)
    ensures
        !store::has_entry(entries, key) ==> store::others(list, entries).to_multiset().count(key)
            == list.to_multiset().count(key),
    decreases list.len(),
{
    broadcast use vstd::multiset::group_multiset_axioms;

    if list.len() > 0 {
        let less = list.drop_last();
        lemma_others_count(less, entries, key);
        assert(list =~= less.push(list.last()));
        less.to_multiset_ensures();
        store::others(less, entries).to_multiset_ensures();
    } else {
        assert(store::others(list, entries) =~= list);
    }
}

/// Where a keyset and its keys are: in the scope's directory one of the keyset's name, and
/// in that a file of the key's name and `.enc`; and what is hidden beside a keyset begins
/// with a dot, its name and a tag, which the number of the process follows.
pub proof fn law_places(scope: Scope, set: Seq<char>, key: Seq<char>, tag: Seq<char>, pid: u32)
    ensures
        store::set_path(scope, set) == scope.dir@ + seq!['/'] + set,
        store::key_path(scope, set, key) == store::set_path(scope, set) + seq!['/'] + key + seq![
            '.',
            'e',
            'n',
            'c',
        ],
        store::beside(scope, set, tag, pid) == scope.dir@ + seq!['/', '.'] + set + tag
            + text::decimal(pid as nat),
{
    reveal_strlit("/");
    reveal_strlit(".");
    reveal_strlit(".enc");
    assert(store::set_path(scope, set) =~= scope.dir@ + seq!['/'] + set);
    assert(store::key_path(scope, set, key) =~= store::set_path(scope, set) + seq!['/'] + key
        + seq!['.', 'e', 'n', 'c']);
    assert(store::beside(scope, set, tag, pid) =~= scope.dir@ + seq!['/', '.'] + set + tag
        + text::decimal(pid as nat));
}

/// The files of a stored keyset name the key that was drawn for it and record when it
/// expires.
pub proof fn law_new_header(new: store::NewKey, secs: u32, now: u64)
    requires
        now + secs <= u64::MAX,
    ensures
        store::new_header(new, Some(secs), now).generation == new.generation(),
        store::new_header(new, Some(secs), now).expiry == now + secs,
        store::new_header(new, None, now).generation == new.generation(),
        store::new_header(new, None, now).expiry == u64::MAX,
{
}

/// Whether a stage fails where any of its steps does, but for those that only clean up.
pub open spec fn needs_its_steps(stage: StageModel) -> bool {
    forall|k: int|
        0 <= k < stage.steps.len() ==> {
            ||| (#[trigger] stage.steps[k]).deed is RemoveTree
            ||| stage.steps[k].deed is RemoveFile
            ||| stage.steps[k].deed is DropKeys
            ||| !(stage.steps[k].fault is Ignored)
        }
}

/// Success is not told of what was not done: storing, merging and setting fail where a
/// directory could not be made, a file not be written or renamed, or the key not be made
/// to expire, be restricted, linked or unlinked; only what cleans up may fail.
pub proof fn law_steps_needed(
    scope: Scope,
    set: Seq<char>,
    ttl: Option<u32>,
    id: KeyId,
    generation: Seq<u8>,
    sealed: Result<Seq<File>, Seq<char>>,
    files: Seq<File>,
    key: Seq<char>,
    bytes: Seq<u8>,
    pid: u32,
)
    ensures
        ({
            let stored = store::store_stages(scope, set, ttl, id, generation, sealed, pid);
            let merged = store::install_stages(scope, set, files, pid, Seq::empty());
            &&& forall|i: int| 0 <= i < stored.len() ==> needs_its_steps(#[trigger] stored[i])
            &&& forall|i: int| 0 <= i < merged.len() ==> needs_its_steps(#[trigger] merged[i])
            &&& needs_its_steps(store::replace_stage(scope, set, key, bytes, pid))
            &&& sealed matches Err(e) ==> stored[1].refusal == Some(e)
        }),
{
    let stored = store::store_stages(scope, set, ttl, id, generation, sealed, pid);
    let desc = names::key_description(set, generation);
    let undo = store::drop_deeds(Some((scope.root, desc)));
    lemma_install_needs(scope, set, files, pid, Seq::empty());
    assert(needs_its_steps(store::secure_stage(scope, id, ttl)));
    if let Ok(list) = sealed {
        let install = store::install_stages(scope, set, list, pid, undo);
        lemma_install_needs(scope, set, list, pid, undo);
        assert(stored[1] == install[0] && stored[2] == install[1]);
    }
}

/// Installing fails where any of its steps does, but for those that only clean up.
proof fn lemma_install_needs(
    scope: Scope,
    set: Seq<char>,
    files: Seq<File>,
    pid: u32,
    undo: Seq<Deed>,
)
    ensures
        ({
            let stages = store::install_stages(scope, set, files, pid, undo);
            needs_its_steps(stages[0]) && needs_its_steps(stages[1])
        }),
{
    let stages = store::install_stages(scope, set, files, pid, undo);
    let steps = stages[1].steps;
    let n = files.len() as int;
    let tmp = store::beside(scope, set, ".new-"@, pid);
    let writes = store::write_steps(scope.base@, tmp, files);
    assert forall|k: int| 0 <= k < steps.len() implies {
        ||| (#[trigger] steps[k]).deed is RemoveTree
        ||| steps[k].deed is RemoveFile
        ||| steps[k].deed is DropKeys
        ||| !(steps[k].fault is Ignored)
    } by {
        if 2 <= k < n + 2 {
            assert(steps[k] == writes[k - 2]);
        }
    }
}

/// Clearing a keyset removes its directory, which it fails without, and then drops every
/// key whose description begins as those of the keyset do; clearing all removes each
/// keyset's directory and then drops every encryption key.
pub proof fn law_clear(scope: Scope, set: Seq<char>, sets: Seq<Seq<char>>, there: bool)
    ensures
        script::step_deeds(store::clear_stage(scope, set).steps, there) == seq![
            Deed::RemoveTree { path: scope.dir@ + seq!['/'] + set },
            Deed::DropKeys {
                ring: scope.root,
                prefix: "tempkeys:key:"@ + set + seq![':'],
                keep: None,
            },
        ],
        !(store::clear_stage(scope, set).steps[0].fault is Ignored),
        ({
            let done = script::step_deeds(store::clear_all_stage(scope, sets).steps, there);
            &&& done.len() == sets.len() + 1
            &&& forall|i: int|
                0 <= i < sets.len() ==> #[trigger] done[i] == (Deed::RemoveTree {
                    path: scope.dir@ + seq!['/'] + sets[i],
                })
            &&& done.last() == (Deed::DropKeys {
                ring: scope.root,
                prefix: "tempkeys:key:"@,
                keep: None,
            })
        }),
{
    reveal_strlit(":");
    let one = store::clear_stage(scope, set).steps;
    let all = store::clear_all_stage(scope, sets).steps;
    law_places(scope, set, set, set, 0);
    script::lemma_step_deeds_plain(one, there);
    assert(names::set_prefix(set) =~= "tempkeys:key:"@ + set + seq![':']);
    assert(script::step_deeds(one, there) =~= seq![one[0].deed, one[1].deed]);
    assert forall|k: int| 0 <= k < all.len() implies (#[trigger] all[k]).guard is None by {
        if k < sets.len() {
            assert(all[k] == store::remove_steps(scope, sets)[k]);
        }
    }
    script::lemma_step_deeds_plain(all, there);
    let done = script::step_deeds(all, there);
    assert forall|i: int| 0 <= i < sets.len() implies #[trigger] done[i] == (Deed::RemoveTree {
        path: scope.dir@ + seq!['/'] + sets[i],
    }) by {
        law_places(scope, sets[i], set, set, 0);
        assert(all[i] == store::remove_steps(scope, sets)[i]);
    }
}

/// A key of an existing keyset can be set to any value that is not too long, where there is
/// a nonce and the keyset's key has 32 bytes: its file keeps the keyset's generation and
/// expiry, and holds the value sealed under the keyset's key for the key's own name.
pub proof fn law_replacement(
    enc_key: Seq<u8>,
    header: Header,
    set: Seq<char>,
    key: Seq<char>,
    value: Seq<u8>,
    nonce: [u8; 24],
    e: OsError,
)
    requires
        enc_key.len() == 32,
        !vault::too_long(value.len() as int),
    ensures
        store::replacement(enc_key, header, set, key, value, Ok(nonce)) matches Ok(file) && {
            &&& vault::is_file(file)
            &&& vault::generation_of(file) == header.generation@
            &&& vault::expiry_of(file) == header.expiry
            &&& file.subrange(28, 52) == nonce@
            &&& file.skip(52) == vault::aead_seal(
                enc_key,
                nonce@,
                value,
                vault::aad_bytes(file.take(28), set, key),
            )
        },
        store::replacement(enc_key, header, set, key, value, Err(e)) is Err,
{
    vault::law_encrypted(
        enc_key,
        header.generation@,
        header.expiry as nat,
        set,
        key,
        value,
        nonce@,
    );
}

/// What was written for a keyset or a key that could not be installed is removed again:
/// the hidden directory, or the hidden file.
pub proof fn law_cleans_up(
    scope: Scope,
    set: Seq<char>,
    files: Seq<File>,
    key: Seq<char>,
    bytes: Seq<u8>,
    pid: u32,
    undo: Seq<Deed>,
)
    ensures
        ({
            let install = store::install_stages(scope, set, files, pid, undo);
            let place = store::set_path(scope, set);
            &&& install[0].undo == undo
            &&& install[1].undo == seq![
                Deed::RemoveTree { path: store::beside(scope, set, ".new-"@, pid) },
            ] + undo
            &&& store::replace_stage(scope, set, key, bytes, pid).undo == seq![
                Deed::RemoveFile {
                    path: place + seq!['/', '.'] + key + ".tmp-"@ + text::decimal(pid as nat),
                },
            ]
        }),
{
    reveal_strlit("/");
    reveal_strlit(".");
    let place = store::set_path(scope, set);
    assert(scope::under(place, "."@ + key + ".tmp-"@ + text::decimal(pid as nat)) =~= place + seq![
        '/',
        '.',
    ] + key + ".tmp-"@ + text::decimal(pid as nat));
}

/// A merge has the files that it carried over and those that were sealed, in full, and
/// none where sealing failed.
pub proof fn law_merged_files(kept: Seq<File>, files: Seq<File>, e: Seq<char>)
    ensures
        store::merged_files(kept, Ok(files)) == Ok::<Seq<File>, Seq<char>>(kept + files),
        store::merged_files(kept, Err(e)) == Err::<Seq<File>, Seq<char>>(e),
{
}

} // verus!
