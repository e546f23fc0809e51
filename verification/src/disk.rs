//! A model of the files on disk, and what the scripts leave there.
use vstd::prelude::*;
use vstd::string::*;
use crate::keyring::KeyReply;
use crate::names;
use crate::parse;
use crate::parse::Entry;
use crate::read;
use crate::read::FileReply;
use crate::scope;
use crate::scope::Scope;
use crate::script;
use crate::script::{Deed, StepModel};
use crate::seal;
use crate::seal::File;
use crate::secret::Secret;
use crate::store;
use crate::store_laws;
use crate::sys::KeyId;
use crate::text;
use crate::vault::Header;

verus! {

/// What each path holds: a file's bytes, or nothing.
pub type Disk = spec_fn(Seq<char>) -> Option<Seq<u8>>;

/// The disk after a deed that succeeds. Directories hold nothing of their own.
pub open spec fn applied(disk: Disk, deed: Deed) -> Disk {
    match deed {
        Deed::WriteNew { path, bytes, .. } => |p: Seq<char>|
            if p == path {
                Some(bytes)
            } else {
                disk(p)
            },
        Deed::RemoveFile { path } => |p: Seq<char>|
            if p == path {
                None
            } else {
                disk(p)
            },
        Deed::RemoveTree { path } => |p: Seq<char>|
            if store_laws::within(p, path) {
                None
            } else {
                disk(p)
            },
        Deed::Rename { from, to } => |p: Seq<char>|
            if store_laws::within(p, to) {
                disk(from + p.skip(to.len() as int))
            } else if store_laws::within(p, from) {
                None
            } else {
                disk(p)
            },
        _ => disk,
    }
}

/// A deed that does not touch a place changes no file there.
pub proof fn law_untouched(disk: Disk, deed: Deed, place: Seq<char>, path: Seq<char>)
    requires
        !store_laws::touches(deed, place),
        store_laws::within(path, place),
    ensures
        applied(disk, deed)(path) == disk(path),
{
    if store_laws::touches(deed, path) {
        store_laws::lemma_touches_place(deed, path, place);
    }
}

/// The disk after deeds that succeed.
pub open spec fn after_deeds(disk: Disk, deeds: Seq<Deed>) -> Disk
    decreases deeds.len(),
{
    if deeds.len() == 0 {
        disk
    } else {
        after_deeds(applied(disk, deeds[0]), deeds.drop_first())
    }
}

/// Deeds one after the other.
proof fn lemma_after_concat(disk: Disk, a: Seq<Deed>, b: Seq<Deed>)
    ensures
        after_deeds(disk, a + b) == after_deeds(after_deeds(disk, a), b),
    decreases a.len(),
{
    if a.len() == 0 {
        assert(a + b =~= b);
    } else {
        assert((a + b)[0] == a[0]);
        assert((a + b).drop_first() =~= a.drop_first() + b);
        lemma_after_concat(applied(disk, a[0]), a.drop_first(), b);
    }
}

/// Whether one of the files has the given path in a directory.
pub open spec fn has_path(files: Seq<File>, dir: Seq<char>, p: Seq<char>) -> bool {
    exists|i: int|
        0 <= i < files.len() && p == scope::under(dir, store::file_name((#[trigger] files[i]).0))
}

/// The deeds that write files into a directory.
spec fn writes(dir: Seq<char>, files: Seq<File>) -> Seq<Deed> {
    files.map_values(
        |f: File|
            Deed::WriteNew {
                path: scope::under(dir, store::file_name(f.0)),
                mode: script::FILE_MODE,
                bytes: f.1,
            },
    )
}

/// Names in one directory are apart where their paths are.
proof fn lemma_names_apart(dir: Seq<char>, a: Seq<char>, b: Seq<char>)
    requires
        scope::under(dir, store::file_name(a)) == scope::under(dir, store::file_name(b)),
    ensures
        a == b,
{
    let n = dir.len() as int + "/"@.len();
    let x = scope::under(dir, store::file_name(a));
    let y = scope::under(dir, store::file_name(b));
    assert(x.skip(n) =~= store::file_name(a));
    assert(y.skip(n) =~= store::file_name(b));
    let e = names::EXT@.len();
    assert(a =~= store::file_name(a).take(store::file_name(a).len() - e));
    assert(b =~= store::file_name(b).take(store::file_name(b).len() - e));
}

/// What writing files into a directory leaves.
proof fn lemma_written(disk: Disk, dir: Seq<char>, files: Seq<File>)
    requires
        store_laws::file_names(files).no_duplicates(),
    ensures
        ({
            let end = after_deeds(disk, writes(dir, files));
            &&& forall|i: int|
                0 <= i < files.len() ==> end(
                    scope::under(dir, store::file_name((#[trigger] files[i]).0)),
                ) == Some(files[i].1)
            &&& forall|p: Seq<char>| !has_path(files, dir, p) ==> #[trigger] end(p) == disk(p)
        }),
    decreases files.len(),
{
    let all = writes(dir, files);
    if files.len() == 0 {
        assert(all =~= Seq::<Deed>::empty());
    } else {
        let rest = files.drop_first();
        let next = applied(disk, all[0]);
        assert(all.drop_first() =~= writes(dir, rest));
        assert(store_laws::file_names(rest) =~= store_laws::file_names(files).drop_first());
        assert(store_laws::file_names(rest).no_duplicates());
        lemma_written(next, dir, rest);
        let end = after_deeds(disk, all);
        assert(end == after_deeds(next, writes(dir, rest)));
        let first = scope::under(dir, store::file_name(files[0].0));
        assert(!has_path(rest, dir, first)) by {
            if has_path(rest, dir, first) {
                let i = choose|i: int|
                    0 <= i < rest.len() && first == scope::under(
                        dir,
                        store::file_name((#[trigger] rest[i]).0),
                    );
                lemma_names_apart(dir, files[0].0, rest[i].0);
                assert(store_laws::file_names(files)[0] == store_laws::file_names(files)[i + 1]);
            }
        }
        assert forall|i: int| 0 <= i < files.len() implies end(
            scope::under(dir, store::file_name((#[trigger] files[i]).0)),
        ) == Some(files[i].1) by {
            if i == 0 {
                assert(end(first) == next(first));
            } else {
                assert(rest[i - 1] == files[i]);
            }
        }
        assert forall|p: Seq<char>| !has_path(files, dir, p) implies #[trigger] end(p) == disk(
            p,
        ) by {
            assert(!has_path(rest, dir, p)) by {
                if has_path(rest, dir, p) {
                    let i = choose|i: int|
                        0 <= i < rest.len() && p == scope::under(
                            dir,
                            store::file_name((#[trigger] rest[i]).0),
                        );
                    assert(files[i + 1] == rest[i]);
                }
            }
            assert(p != first) by {
                if p == first {
                    assert(p == scope::under(dir, store::file_name(files[0].0)));
                }
            }
        }
    }
}

/// The deeds of installing a keyset: `there` says whether the keyset was there before.
spec fn install_deeds(
    scope: Scope,
    set: Seq<char>,
    files: Seq<File>,
    pid: u32,
    there: bool,
) -> Seq<Deed> {
    let tmp = store::beside(scope, set, ".new-"@, pid);
    let old_dir = store::beside(scope, set, ".old-"@, pid);
    let dest = store::set_path(scope, set);
    seq![
        Deed::MakeDir { path: scope.dir@, mode: script::DIR_MODE },
        Deed::RemoveTree { path: tmp },
        Deed::MakeDir { path: tmp, mode: script::DIR_MODE },
    ] + writes(tmp, files) + swap_deeds(tmp, dest, old_dir, there)
}

/// What installing does is these deeds.
proof fn lemma_install_deeds(
    scope: Scope,
    set: Seq<char>,
    files: Seq<File>,
    pid: u32,
    undo: Seq<Deed>,
    there: bool,
)
    ensures
        script::all_deeds(store::install_stages(scope, set, files, pid, undo), there)
            == install_deeds(scope, set, files, pid, there),
{
    let stages = store::install_stages(scope, set, files, pid, undo);
    let tmp = store::beside(scope, set, ".new-"@, pid);
    let steps = stages[1].steps;
    let w = store::write_steps(scope.base@, tmp, files);
    let head = steps.take(2);
    let tail = steps.skip(2 + w.len() as int);
    assert(steps =~= head + w + tail);
    script::lemma_step_deeds_concat(head + w, tail, there);
    script::lemma_step_deeds_concat(head, w, there);
    script::lemma_step_deeds_plain(head, there);
    script::lemma_step_deeds_plain(w, there);
    script::lemma_step_deeds_plain(stages[0].steps, there);
    assert(w.map_values(|s: StepModel| s.deed) =~= writes(tmp, files));
    let a = tail.drop_first();
    let b = a.drop_first();
    let c = b.drop_first();
    let d = c.drop_first();
    assert(tail.len() == 4);
    assert(d =~= Seq::<StepModel>::empty());
    reveal_with_fuel(script::step_deeds, 5);
    assert(script::step_deeds(tail, there) =~= seq![
        Deed::RemoveTree { path: store::beside(scope, set, ".old-"@, pid) },
    ] + (if there {
        seq![
            Deed::Rename {
                from: store::set_path(scope, set),
                to: store::beside(scope, set, ".old-"@, pid),
            },
        ]
    } else {
        Seq::empty()
    }) + seq![
        Deed::Rename { from: tmp, to: store::set_path(scope, set) },
        Deed::RemoveTree { path: store::beside(scope, set, ".old-"@, pid) },
    ]);
    reveal_with_fuel(script::all_deeds, 3);
    assert(stages.drop_first()[0] == stages[1]);
    assert(stages.drop_first().drop_first().len() == 0);
    assert(script::all_deeds(stages, there) =~= install_deeds(scope, set, files, pid, there));
}

/// A path below a directory goes on with a `/`.
pub proof fn lemma_below(p: Seq<char>, place: Seq<char>, other: Seq<char>)
    requires
        store_laws::within(p, place),
    ensures
        store_laws::within(other + p.skip(place.len() as int), other),
        p == place + p.skip(place.len() as int),
{
    let rest = p.skip(place.len() as int);
    if p == place {
        assert(rest =~= Seq::<char>::empty());
        assert(other + rest =~= other);
        assert(place + rest =~= p);
    } else {
        let q = place + "/"@;
        assert(q =~= p.subrange(0, q.len() as int));
        assert forall|i: int| 0 <= i < place.len() implies p[i] == place[i] by {
            assert(q[i] == place[i]);
        }
        assert(p =~= place + rest);
        let o = other + "/"@;
        assert forall|i: int| 0 <= i < "/"@.len() implies rest[i] == "/"@[i] by {
            assert(q[place.len() + i] == "/"@[i]);
            assert(p[place.len() + i] == q[place.len() + i]);
        }
        assert(o =~= (other + rest).subrange(0, o.len() as int));
    }
}

/// The disk once the new directory was swapped in.
spec fn swapped(
    disk: Disk,
    tmp: Seq<char>,
    dest: Seq<char>,
    old_dir: Seq<char>,
    there: bool,
) -> Disk {
    let emptied = applied(disk, Deed::RemoveTree { path: old_dir });
    let moved = if there {
        applied(emptied, Deed::Rename { from: dest, to: old_dir })
    } else {
        emptied
    };
    applied(
        applied(moved, Deed::Rename { from: tmp, to: dest }),
        Deed::RemoveTree { path: old_dir },
    )
}

/// The deeds that swap the new directory in.
spec fn swap_deeds(
    tmp: Seq<char>,
    dest: Seq<char>,
    old_dir: Seq<char>,
    there: bool,
) -> Seq<Deed> {
    seq![Deed::RemoveTree { path: old_dir }] + (if there {
        seq![Deed::Rename { from: dest, to: old_dir }]
    } else {
        Seq::empty()
    }) + seq![Deed::Rename { from: tmp, to: dest }, Deed::RemoveTree { path: old_dir }]
}

/// What those deeds leave.
proof fn lemma_swap_deeds(
    disk: Disk,
    tmp: Seq<char>,
    dest: Seq<char>,
    old_dir: Seq<char>,
    there: bool,
)
    ensures
        after_deeds(disk, swap_deeds(tmp, dest, old_dir, there)) == swapped(
            disk,
            tmp,
            dest,
            old_dir,
            there,
        ),
{
    let deeds = swap_deeds(tmp, dest, old_dir, there);
    reveal_with_fuel(after_deeds, 5);
    let a = deeds.drop_first();
    let b = a.drop_first();
    let c = b.drop_first();
    let d = c.drop_first();
    assert(deeds[0] == (Deed::RemoveTree { path: old_dir }));
    if there {
        assert(a[0] == (Deed::Rename { from: dest, to: old_dir }));
        assert(b[0] == (Deed::Rename { from: tmp, to: dest }));
        assert(c[0] == (Deed::RemoveTree { path: old_dir }));
        assert(d.len() == 0);
    } else {
        assert(a[0] == (Deed::Rename { from: tmp, to: dest }));
        assert(b[0] == (Deed::RemoveTree { path: old_dir }));
        assert(c.len() == 0);
    }
}

/// What is within the keyset's directory once the new one was swapped in was within
/// the new one.
proof fn lemma_swapped_in(
    disk: Disk,
    scope: Scope,
    set: Seq<char>,
    pid: u32,
    there: bool,
    p: Seq<char>,
)
    requires
        names::is_set_name(set),
        store_laws::within(p, store::set_path(scope, set)),
    ensures
        ({
            let dest = store::set_path(scope, set);
            let tmp = store::beside(scope, set, ".new-"@, pid);
            let old_dir = store::beside(scope, set, ".old-"@, pid);
            swapped(disk, tmp, dest, old_dir, there)(p) == disk(tmp + p.skip(dest.len() as int))
        }),
{
    let dest = store::set_path(scope, set);
    let tmp = store::beside(scope, set, ".new-"@, pid);
    let old_dir = store::beside(scope, set, ".old-"@, pid);
    lemma_places_apart(scope, set, pid);
    let rest = p.skip(dest.len() as int);
    lemma_below(p, dest, tmp);
    assert(p == dest + rest);
    assert(!store_laws::within(dest + rest, old_dir));
    assert(!store_laws::within(tmp + rest, old_dir));
    assert(!store_laws::within(tmp + rest, dest));
}

/// What is within none of the directories stays.
proof fn lemma_swap_spares(
    disk: Disk,
    tmp: Seq<char>,
    dest: Seq<char>,
    old_dir: Seq<char>,
    there: bool,
    p: Seq<char>,
)
    requires
        !store_laws::within(p, dest),
        !store_laws::within(p, tmp),
        !store_laws::within(p, old_dir),
    ensures
        swapped(disk, tmp, dest, old_dir, there)(p) == disk(p),
{
}

/// The disk once the files are in the new directory.
spec fn prepared(disk: Disk, tmp: Seq<char>, files: Seq<File>) -> Disk {
    after_deeds(applied(disk, Deed::RemoveTree { path: tmp }), writes(tmp, files))
}

/// Installing prepares the new directory and swaps it in.
proof fn lemma_install_end(
    scope: Scope,
    set: Seq<char>,
    files: Seq<File>,
    pid: u32,
    undo: Seq<Deed>,
    disk: Disk,
    there: bool,
)
    ensures
        ({
            let stages = store::install_stages(scope, set, files, pid, undo);
            let dest = store::set_path(scope, set);
            let tmp = store::beside(scope, set, ".new-"@, pid);
            let old_dir = store::beside(scope, set, ".old-"@, pid);
            after_deeds(disk, script::all_deeds(stages, there)) == swapped(
                prepared(disk, tmp, files),
                tmp,
                dest,
                old_dir,
                there,
            )
        }),
{
    let dest = store::set_path(scope, set);
    let tmp = store::beside(scope, set, ".new-"@, pid);
    let old_dir = store::beside(scope, set, ".old-"@, pid);
    lemma_install_deeds(scope, set, files, pid, undo, there);
    let head = seq![
        Deed::MakeDir { path: scope.dir@, mode: script::DIR_MODE },
        Deed::RemoveTree { path: tmp },
        Deed::MakeDir { path: tmp, mode: script::DIR_MODE },
    ];
    let w = writes(tmp, files);
    let tail = swap_deeds(tmp, dest, old_dir, there);
    assert(install_deeds(scope, set, files, pid, there) == head + w + tail);
    lemma_after_concat(disk, head + w, tail);
    lemma_after_concat(disk, head, w);
    assert(after_deeds(disk, head) == applied(disk, Deed::RemoveTree { path: tmp })) by {
        reveal_with_fuel(after_deeds, 4);
        assert(head.drop_first().drop_first().drop_first().len() == 0);
        assert(head.drop_first()[0] == head[1]);
        assert(head.drop_first().drop_first()[0] == head[2]);
    }
    lemma_swap_deeds(prepared(disk, tmp, files), tmp, dest, old_dir, there);
}

/// A keyset that was installed is exactly the files that it was made of, and no file
/// elsewhere changes but for the hidden ones that it was installed with.
pub proof fn law_installed(
    scope: Scope,
    set: Seq<char>,
    files: Seq<File>,
    pid: u32,
    undo: Seq<Deed>,
    disk: Disk,
    there: bool,
)
    requires
        names::is_set_name(set),
        store_laws::file_names(files).no_duplicates(),
    ensures
        ({
            let stages = store::install_stages(scope, set, files, pid, undo);
            let end = after_deeds(disk, script::all_deeds(stages, there));
            let dest = store::set_path(scope, set);
            let tmp = store::beside(scope, set, ".new-"@, pid);
            let old_dir = store::beside(scope, set, ".old-"@, pid);
            &&& forall|i: int|
                0 <= i < files.len() ==> end(
                    store::key_path(scope, set, (#[trigger] files[i]).0),
                ) == Some(files[i].1)
            &&& forall|p: Seq<char>|
                store_laws::within(p, dest) && #[trigger] end(p) is Some ==> has_path(
                    files,
                    dest,
                    p,
                )
            &&& forall|p: Seq<char>|
                !store_laws::within(p, dest) && !store_laws::within(p, tmp) && !store_laws::within(
                    p,
                    old_dir,
                ) ==> #[trigger] end(p) == disk(p)
        }),
{
    let stages = store::install_stages(scope, set, files, pid, undo);
    let end = after_deeds(disk, script::all_deeds(stages, there));
    let dest = store::set_path(scope, set);
    let tmp = store::beside(scope, set, ".new-"@, pid);
    let old_dir = store::beside(scope, set, ".old-"@, pid);
    let cleared = applied(disk, Deed::RemoveTree { path: tmp });
    let written = prepared(disk, tmp, files);
    lemma_install_end(scope, set, files, pid, undo, disk, there);
    lemma_written(cleared, tmp, files);
    assert forall|i: int| 0 <= i < files.len() implies end(
        store::key_path(scope, set, (#[trigger] files[i]).0),
    ) == Some(files[i].1) by {
        let f = store::file_name(files[i].0);
        let p = store::key_path(scope, set, files[i].0);
        assert((dest + "/"@) =~= p.subrange(0, (dest + "/"@).len() as int));
        lemma_swapped_in(written, scope, set, pid, there, p);
        assert(tmp + p.skip(dest.len() as int) =~= scope::under(tmp, f));
    }
    assert forall|p: Seq<char>|
        store_laws::within(p, dest) && #[trigger] end(p) is Some implies has_path(
        files,
        dest,
        p,
    ) by {
        lemma_swapped_in(written, scope, set, pid, there, p);
        lemma_was_written(disk, tmp, dest, files, p);
    }
    assert forall|p: Seq<char>|
        !store_laws::within(p, dest) && !store_laws::within(p, tmp) && !store_laws::within(
            p,
            old_dir,
        ) implies #[trigger] end(p) == disk(p) by {
        lemma_swap_spares(written, tmp, dest, old_dir, there, p);
        assert(!has_path(files, tmp, p)) by {
            if has_path(files, tmp, p) {
                let i = choose|i: int|
                    0 <= i < files.len() && p == scope::under(
                        tmp,
                        store::file_name((#[trigger] files[i]).0),
                    );
                assert((tmp + "/"@) =~= p.subrange(0, (tmp + "/"@).len() as int));
            }
        }
        assert(written(p) == cleared(p));
    }
}

/// What is in the new directory is one of the files.
proof fn lemma_was_written(
    disk: Disk,
    tmp: Seq<char>,
    dest: Seq<char>,
    files: Seq<File>,
    p: Seq<char>,
)
    requires
        store_laws::file_names(files).no_duplicates(),
        store_laws::within(p, dest),
        prepared(disk, tmp, files)(tmp + p.skip(dest.len() as int)) is Some,
    ensures
        has_path(files, dest, p),
{
    let cleared = applied(disk, Deed::RemoveTree { path: tmp });
    let rest = p.skip(dest.len() as int);
    let q = tmp + rest;
    lemma_below(p, dest, tmp);
    lemma_written(cleared, tmp, files);
    if !has_path(files, tmp, q) {
        assert(prepared(disk, tmp, files)(q) == cleared(q));
        assert(false);
    }
    let i = choose|i: int|
        0 <= i < files.len() && q == scope::under(tmp, store::file_name((#[trigger] files[i]).0));
    let f = store::file_name(files[i].0);
    assert(q.skip(tmp.len() as int) =~= rest);
    assert(q.skip(tmp.len() as int) =~= "/"@ + f);
    assert(p =~= dest + ("/"@ + f));
    assert(p =~= scope::under(dest, f));
}

/// The keyset's directory and the two hidden ones beside it are not within each other.
pub proof fn lemma_places_apart(scope: Scope, set: Seq<char>, pid: u32)
    requires
        names::is_set_name(set),
    ensures
        ({
            let dest = store::set_path(scope, set);
            let tmp = store::beside(scope, set, ".new-"@, pid);
            let old_dir = store::beside(scope, set, ".old-"@, pid);
            &&& forall|b: Seq<char>| !store_laws::within(#[trigger] (tmp + b), dest)
            &&& forall|b: Seq<char>| !store_laws::within(#[trigger] (tmp + b), old_dir)
            &&& forall|b: Seq<char>| !store_laws::within(#[trigger] (dest + b), tmp)
            &&& forall|b: Seq<char>| !store_laws::within(#[trigger] (dest + b), old_dir)
            &&& forall|b: Seq<char>| !store_laws::within(#[trigger] (old_dir + b), dest)
            &&& forall|b: Seq<char>| !store_laws::within(#[trigger] (old_dir + b), tmp)
        }),
{
    let tmp_name = "."@ + set + ".new-"@ + text::decimal(pid as nat);
    let old_name = "."@ + set + ".old-"@ + text::decimal(pid as nat);
    reveal_strlit(".");
    reveal_strlit(".new-");
    reveal_strlit(".old-");
    assert(tmp_name[0] == '.');
    assert(old_name[0] == '.');
    let k = set.len() as int + 2;
    assert(tmp_name[k] == 'n');
    assert(old_name[k] == 'o');
    let dir = scope.dir@;
    store_laws::lemma_differ(dir, tmp_name, set, 0);
    store_laws::lemma_differ(dir, set, tmp_name, 0);
    store_laws::lemma_differ(dir, old_name, set, 0);
    store_laws::lemma_differ(dir, set, old_name, 0);
    store_laws::lemma_differ(dir, tmp_name, old_name, k);
    store_laws::lemma_differ(dir, old_name, tmp_name, k);
}

/// Deeds that change no file.
proof fn lemma_no_files(disk: Disk, deeds: Seq<Deed>)
    requires
        forall|i: int|
            0 <= i < deeds.len() ==> ((#[trigger] deeds[i]) is SetTimeout || deeds[i] is SetPerm
                || deeds[i] is Link || deeds[i] is Unlink || deeds[i] is DropKeys),
    ensures
        after_deeds(disk, deeds) == disk,
    decreases deeds.len(),
{
    if deeds.len() > 0 {
        assert(applied(disk, deeds[0]) == disk);
        lemma_no_files(disk, deeds.drop_first());
    }
}

/// A keyset that was stored is on disk what installing it leaves.
proof fn lemma_stored(
    scope: Scope,
    set: Seq<char>,
    ttl: Option<u32>,
    id: KeyId,
    generation: Seq<u8>,
    files: Seq<File>,
    pid: u32,
    disk: Disk,
    there: bool,
)
    ensures
        ({
            let stages = store::store_stages(scope, set, ttl, id, generation, Ok(files), pid);
            let desc = names::key_description(set, generation);
            let undo = store::drop_deeds(Some((scope.root, desc)));
            let install = store::install_stages(scope, set, files, pid, undo);
            after_deeds(disk, script::all_deeds(stages, there)) == after_deeds(
                disk,
                script::all_deeds(install, there),
            )
        }),
{
    let desc = names::key_description(set, generation);
    let undo = store::drop_deeds(Some((scope.root, desc)));
    let install = store::install_stages(scope, set, files, pid, undo);
    let secure = store::secure_stage(scope, id, ttl).steps;
    let a = script::step_deeds(secure, there);
    let b = script::all_deeds(install, there);
    let c = seq![
        Deed::DropKeys { ring: scope.root, prefix: names::set_prefix(set), keep: Some(desc) },
    ];
    store_laws::law_store_order(scope, set, ttl, id, generation, files, pid, there);
    script::lemma_step_deeds_plain(secure, there);
    lemma_after_concat(disk, a + b, c);
    lemma_after_concat(disk, a, b);
    lemma_no_files(disk, a);
    lemma_no_files(after_deeds(disk, b), c);
}

/// What was stored is what is read: once a keyset was stored whose files hold entries,
/// the file that is read for an entry's key gives the entry's value back, as long as it
/// has not expired and its encryption key is there.
pub proof fn law_stored_is_read(
    scope: Scope,
    set: Seq<char>,
    ttl: Option<u32>,
    id: KeyId,
    key: Secret,
    header: Header,
    entries: Seq<Entry>,
    files: Seq<File>,
    pid: u32,
    disk: Disk,
    there: bool,
    i: int,
    file: Vec<u8>,
    now: u64,
)
    requires
        names::is_set_name(set),
        parse::is_keyset(entries),
        seal::hold_all(key@, header, set, entries, files),
        0 <= i < entries.len(),
        after_deeds(
            disk,
            script::all_deeds(
                store::store_stages(scope, set, ttl, id, header.generation@, Ok(files), pid),
                there,
            ),
        )(store::key_path(scope, set, entries[i].0)) == Some(file@),
        now < header.expiry,
    ensures
        read::secret_read(
            set,
            entries[i].0,
            FileReply::Bytes(file),
            now,
            KeyReply::Key(key),
        ) == Ok::<Seq<u8>, Seq<char>>(entries[i].1),
{
    assert forall|a: int, b: int|
        0 <= a < b < files.len() implies store_laws::file_names(files)[a]
        != store_laws::file_names(files)[b] by {
        assert(files[a].0 == entries[a].0);
        assert(files[b].0 == entries[b].0);
    }
    let desc = names::key_description(set, header.generation@);
    let undo = store::drop_deeds(Some((scope.root, desc)));
    lemma_stored(scope, set, ttl, id, header.generation@, files, pid, disk, there);
    law_installed(scope, set, files, pid, undo, disk, there);
    assert(files[i].0 == entries[i].0);
    read::law_read_back(key, header, set, entries[i].0, entries[i].1, file, now);
}

/// A merge leaves the files of the keys that it does not replace as they are: those
/// that it carried over are at the end what they were when they were read.
pub proof fn law_merged(
    scope: Scope,
    set: Seq<char>,
    kept: Seq<File>,
    files: Seq<File>,
    pid: u32,
    disk: Disk,
    there: bool,
)
    requires
        names::is_set_name(set),
        store_laws::file_names(kept + files).no_duplicates(),
        forall|i: int|
            0 <= i < kept.len() ==> disk(
                store::key_path(scope, set, (#[trigger] kept[i]).0),
            ) == Some(kept[i].1),
    ensures
        ({
            let stages = store::install_stages(scope, set, kept + files, pid, Seq::empty());
            let end = after_deeds(disk, script::all_deeds(stages, there));
            &&& forall|i: int|
                0 <= i < kept.len() ==> end(
                    store::key_path(scope, set, (#[trigger] kept[i]).0),
                ) == disk(store::key_path(scope, set, kept[i].0))
            &&& forall|i: int|
                0 <= i < files.len() ==> end(
                    store::key_path(scope, set, (#[trigger] files[i]).0),
                ) == Some(files[i].1)
        }),
{
    let all = kept + files;
    law_installed(scope, set, all, pid, Seq::empty(), disk, there);
    assert forall|i: int| 0 <= i < kept.len() implies #[trigger] kept[i] == all[i] by {}
    assert forall|i: int| 0 <= i < files.len() implies #[trigger] files[i] == all[kept.len()
        + i] by {}
}

/// What was merged is what is read: once entries were merged into a keyset, the file that
/// is read for an entry's key gives the entry's value back, and the file that is read for
/// a key that was kept gives back the value that it held, as long as the keyset has not
/// expired and its encryption key is there. `list` are the keys that the keyset had.
pub proof fn law_merged_is_read(
    scope: Scope,
    set: Seq<char>,
    key: Secret,
    header: Header,
    list: Seq<Seq<char>>,
    kept: Seq<File>,
    entries: Seq<Entry>,
    files: Seq<File>,
    pid: u32,
    disk: Disk,
    there: bool,
    name: Seq<char>,
    value: Seq<u8>,
    file: Vec<u8>,
    now: u64,
)
    requires
        names::is_set_name(set),
        list.no_duplicates(),
        parse::is_keyset(entries),
        store_laws::file_names(kept) == store::others(list, entries),
        seal::hold_all(key@, header, set, entries, files),
        entries.contains((name, value)) || exists|k: int|
            0 <= k < kept.len() && (#[trigger] kept[k]).0 == name && seal::holds(
                key@,
                header,
                set,
                (name, value),
                kept[k].1,
            ),
        after_deeds(
            disk,
            script::all_deeds(
                store::install_stages(scope, set, kept + files, pid, Seq::empty()),
                there,
            ),
        )(store::key_path(scope, set, name)) == Some(file@),
        now < header.expiry,
    ensures
        read::secret_read(set, name, FileReply::Bytes(file), now, KeyReply::Key(key)) == Ok::<
            Seq<u8>,
            Seq<char>,
        >(value),
{
    let all = kept + files;
    store_laws::law_merge_keeps(list, kept, entries, files);
    law_installed(scope, set, all, pid, Seq::empty(), disk, there);
    if entries.contains((name, value)) {
        let i = choose|i: int| 0 <= i < entries.len() && entries[i] == (name, value);
        assert(files[i].0 == entries[i].0);
        assert(all[kept.len() + i] == files[i]);
    } else {
        let k = choose|k: int|
            0 <= k < kept.len() && (#[trigger] kept[k]).0 == name && seal::holds(
                key@,
                header,
                set,
                (name, value),
                kept[k].1,
            );
        assert(all[k] == kept[k]);
    }
    read::law_read_back(key, header, set, name, value, file, now);
}

/// Replacing one key puts its new file in place of the old one, and changes no other
/// file but for the hidden one that it was written to.
pub proof fn law_replaced(
    scope: Scope,
    set: Seq<char>,
    key: Seq<char>,
    bytes: Seq<u8>,
    pid: u32,
    disk: Disk,
    there: bool,
)
    requires
        parse::is_name(key),
    ensures
        ({
            let stage = store::replace_stage(scope, set, key, bytes, pid);
            let end = after_deeds(disk, script::all_deeds(seq![stage], there));
            let tmp = scope::under(
                store::set_path(scope, set),
                "."@ + key + ".tmp-"@ + text::decimal(pid as nat),
            );
            &&& end(store::key_path(scope, set, key)) == Some(bytes)
            &&& forall|p: Seq<char>|
                !store_laws::within(p, store::key_path(scope, set, key)) && !store_laws::within(
                    p,
                    tmp,
                ) ==> #[trigger] end(p) == disk(p)
        }),
{
    let stage = store::replace_stage(scope, set, key, bytes, pid);
    let dest = store::key_path(scope, set, key);
    let name = "."@ + key + ".tmp-"@ + text::decimal(pid as nat);
    let tmp = scope::under(store::set_path(scope, set), name);
    reveal_with_fuel(script::all_deeds, 2);
    assert(seq![stage].drop_first().len() == 0);
    script::lemma_step_deeds_plain(stage.steps, there);
    let deeds = seq![
        Deed::RemoveFile { path: tmp },
        Deed::WriteNew { path: tmp, mode: script::FILE_MODE, bytes },
        Deed::Rename { from: tmp, to: dest },
    ];
    assert(script::all_deeds(seq![stage], there) =~= deeds);
    reveal_with_fuel(after_deeds, 4);
    assert(deeds.drop_first()[0] == deeds[1]);
    assert(deeds.drop_first().drop_first()[0] == deeds[2]);
    assert(deeds.drop_first().drop_first().drop_first().len() == 0);
    let end = after_deeds(disk, deeds);
    assert(tmp + dest.skip(dest.len() as int) =~= tmp);
    assert(end(dest) == Some(bytes));
}

/// What was set is what is read: once a key was set to a value that its new file holds,
/// the file that is read for the key gives the value back, and every other key reads as
/// before, as long as the keyset has not expired and its encryption key is there.
pub proof fn law_set_is_read(
    scope: Scope,
    set: Seq<char>,
    key: Secret,
    header: Header,
    name: Seq<char>,
    value: Seq<u8>,
    bytes: Seq<u8>,
    other: Seq<char>,
    pid: u32,
    disk: Disk,
    there: bool,
    file: Vec<u8>,
    now: u64,
)
    requires
        parse::is_name(name),
        parse::is_name(other),
        seal::holds(key@, header, set, (name, value), bytes),
        after_deeds(
            disk,
            script::all_deeds(seq![store::replace_stage(scope, set, name, bytes, pid)], there),
        )(store::key_path(scope, set, other)) == Some(file@),
    ensures
        other == name && now < header.expiry ==> read::secret_read(
            set,
            other,
            FileReply::Bytes(file),
            now,
            KeyReply::Key(key),
        ) == Ok::<Seq<u8>, Seq<char>>(value),
        other != name ==> disk(store::key_path(scope, set, other)) == Some(file@),
{
    law_replaced(scope, set, name, bytes, pid, disk, there);
    if other != name {
        let stage = store::replace_stage(scope, set, name, bytes, pid);
        let place = store::key_path(scope, set, other);
        store_laws::law_replace_touches_one(scope, set, name, other, bytes, pid);
        let deeds = script::all_deeds(seq![stage], there);
        reveal_with_fuel(script::all_deeds, 2);
        assert(seq![stage].drop_first().len() == 0);
        script::lemma_step_deeds_plain(stage.steps, there);
        assert(deeds =~= seq![stage.steps[0].deed, stage.steps[1].deed, stage.steps[2].deed]);
        lemma_untouched_by_all(disk, deeds, place);
    } else if now < header.expiry {
        read::law_read_back(key, header, set, name, value, file, now);
    }
}

/// Deeds that do not touch a place change no file there.
proof fn lemma_untouched_by_all(disk: Disk, deeds: Seq<Deed>, place: Seq<char>)
    requires
        forall|i: int| 0 <= i < deeds.len() ==> !store_laws::touches(#[trigger] deeds[i], place),
    ensures
        after_deeds(disk, deeds)(place) == disk(place),
    decreases deeds.len(),
{
    if deeds.len() > 0 {
        law_untouched(disk, deeds[0], place, place);
        lemma_untouched_by_all(applied(disk, deeds[0]), deeds.drop_first(), place);
    }
}

/// Clearing a keyset leaves none of its files, and changes no other file.
pub proof fn law_cleared(scope: Scope, set: Seq<char>, disk: Disk, there: bool)
    ensures
        ({
            let stage = store::clear_stage(scope, set);
            let end = after_deeds(disk, script::all_deeds(seq![stage], there));
            forall|p: Seq<char>| #[trigger]
                end(p) == (if store_laws::within(p, store::set_path(scope, set)) {
                    None
                } else {
                    disk(p)
                })
        }),
{
    let stage = store::clear_stage(scope, set);
    reveal_with_fuel(script::all_deeds, 2);
    assert(seq![stage].drop_first().len() == 0);
    script::lemma_step_deeds_plain(stage.steps, there);
    let deeds = script::all_deeds(seq![stage], there);
    assert(deeds =~= seq![stage.steps[0].deed, stage.steps[1].deed]);
    reveal_with_fuel(after_deeds, 3);
    assert(deeds.drop_first()[0] == deeds[1]);
    assert(deeds.drop_first().drop_first().len() == 0);
}

/// Clearing all keysets leaves none of the files of any of them, and changes no other.
pub proof fn law_all_cleared(scope: Scope, sets: Seq<Seq<char>>, disk: Disk, there: bool)
    ensures
        ({
            let stage = store::clear_all_stage(scope, sets);
            let end = after_deeds(disk, script::all_deeds(seq![stage], there));
            forall|p: Seq<char>| #[trigger]
                end(p) == (if exists|i: int|
                    0 <= i < sets.len() && store_laws::within(
                        p,
                        store::set_path(scope, #[trigger] sets[i]),
                    ) {
                    None
                } else {
                    disk(p)
                })
        }),
{
    let stage = store::clear_all_stage(scope, sets);
    reveal_with_fuel(script::all_deeds, 2);
    assert(seq![stage].drop_first().len() == 0);
    store_laws::law_clear(scope, seq![], sets, there);
    let done = script::step_deeds(stage.steps, there);
    assert(script::all_deeds(seq![stage], there) =~= done);
    let trees = done.drop_last();
    assert(done =~= trees + seq![done.last()]);
    lemma_after_concat(disk, trees, seq![done.last()]);
    lemma_no_files(after_deeds(disk, trees), seq![done.last()]);
    assert forall|i: int| 0 <= i < sets.len() implies #[trigger] trees[i] == (Deed::RemoveTree {
        path: store::set_path(scope, sets[i]),
    }) by {
        store_laws::law_places(scope, sets[i], sets[i], sets[i], 0);
        assert(trees[i] == done[i]);
    }
    lemma_trees_removed(scope, sets, trees, disk);
}

/// Removing trees removes what is within them, and nothing else.
proof fn lemma_trees_removed(scope: Scope, sets: Seq<Seq<char>>, trees: Seq<Deed>, disk: Disk)
    requires
        trees.len() == sets.len(),
        forall|i: int|
            0 <= i < sets.len() ==> #[trigger] trees[i] == (Deed::RemoveTree {
                path: store::set_path(scope, sets[i]),
            }),
    ensures
        forall|p: Seq<char>| #[trigger]
            after_deeds(disk, trees)(p) == (if exists|i: int|
                0 <= i < sets.len() && store_laws::within(
                    p,
                    store::set_path(scope, #[trigger] sets[i]),
                ) {
                None
            } else {
                disk(p)
            }),
    decreases trees.len(),
{
    if trees.len() > 0 {
        let first = applied(disk, trees[0]);
        let rest = sets.drop_first();
        assert forall|i: int| 0 <= i < rest.len() implies #[trigger] trees.drop_first()[i] == (
        Deed::RemoveTree { path: store::set_path(scope, rest[i]) }) by {
            assert(trees[i + 1] == trees.drop_first()[i]);
        }
        lemma_trees_removed(scope, rest, trees.drop_first(), first);
        assert(trees[0] == (Deed::RemoveTree { path: store::set_path(scope, sets[0]) }));
        assert forall|p: Seq<char>| #[trigger]
            after_deeds(disk, trees)(p) == (if exists|i: int|
                0 <= i < sets.len() && store_laws::within(
                    p,
                    store::set_path(scope, #[trigger] sets[i]),
                ) {
                None
            } else {
                disk(p)
            }) by {
            if exists|i: int|
                0 <= i < sets.len() && store_laws::within(
                    p,
                    store::set_path(scope, #[trigger] sets[i]),
                ) {
                let i = choose|i: int|
                    0 <= i < sets.len() && store_laws::within(
                        p,
                        store::set_path(scope, #[trigger] sets[i]),
                    );
                if i > 0 {
                    assert(rest[i - 1] == sets[i]);
                }
            }
            if exists|i: int|
                0 <= i < rest.len() && store_laws::within(
                    p,
                    store::set_path(scope, #[trigger] rest[i]),
                ) {
                let i = choose|i: int|
                    0 <= i < rest.len() && store_laws::within(
                        p,
                        store::set_path(scope, #[trigger] rest[i]),
                    );
                assert(rest[i] == sets[i + 1]);
            }
        }
    }
}

} // verus!
