//! What scripts leave on disk where they fail.
use vstd::prelude::*;
use vstd::string::*;
use crate::disk;
use crate::disk::Disk;
use crate::names;
use crate::parse;
use crate::scope::Scope;
use crate::script;
use crate::script::{Deed, Outcome, Run, StageModel, Todo};
use crate::seal::File;
use crate::store;
use crate::store_laws;
use crate::sys::KeyId;

verus! {

/// Whether a disk can be what is left of another by what was to be done, with what came
/// of it. A deed that failed may have got part of the way, but it changed no file that
/// it does not touch; a rename that failed changed none at all.
pub open spec fn may_leave(before: Disk, what: Todo, outcome: Outcome, left: Disk) -> bool {
    match what {
        Todo::Perform(deed) => if !(outcome is Failed) {
            left == disk::applied(before, deed)
        } else if deed is Rename {
            left == before
        } else {
            forall|p: Seq<char>| !store_laws::touches(deed, p) ==> #[trigger] left(p) == before(p)
        },
        _ => left == before,
    }
}

/// Whether disks can be those before, between and after the outcomes of a script.
pub open spec fn may_lead(run: Run, outcomes: Seq<Outcome>, disks: Seq<Disk>) -> bool
    decreases outcomes.len(),
{
    &&& disks.len() == outcomes.len() + 1
    &&& outcomes.len() > 0 ==> {
        &&& may_leave(disks[0], script::todo(run), outcomes[0], disks[1])
        &&& may_lead(script::after(run, outcomes[0]), outcomes.drop_first(), disks.drop_first())
    }
}

/// Whether a deed is never done with success.
pub open spec fn never_done(run: Run, outcomes: Seq<Outcome>, deed: Deed) -> bool
    decreases outcomes.len(),
{
    outcomes.len() > 0 ==> {
        &&& script::todo(run) == Todo::Perform(deed) ==> outcomes[0] is Failed
        &&& never_done(script::after(run, outcomes[0]), outcomes.drop_first(), deed)
    }
}

/// Whether the files within a place are what they were.
pub open spec fn kept(before: Disk, left: Disk, place: Seq<char>) -> bool {
    forall|p: Seq<char>| store_laws::within(p, place) ==> #[trigger] left(p) == before(p)
}

/// Whether the files that were within a place are within another.
pub open spec fn moved(before: Disk, left: Disk, place: Seq<char>, other: Seq<char>) -> bool {
    forall|p: Seq<char>|
        store_laws::within(p, place) ==> left(other + p.skip(place.len() as int))
            == #[trigger] before(p)
}

/// What does not touch a place leaves its files, whatever comes of it.
proof fn lemma_left(before: Disk, deed: Deed, outcome: Outcome, left: Disk, place: Seq<char>)
    requires
        may_leave(before, Todo::Perform(deed), outcome, left),
        !store_laws::touches(deed, place),
    ensures
        kept(before, left, place),
{
    assert forall|p: Seq<char>| store_laws::within(p, place) implies #[trigger] left(p) == before(
        p,
    ) by {
        disk::law_untouched(before, deed, place, p);
        if store_laws::touches(deed, p) {
            store_laws::lemma_touches_place(deed, p, place);
        }
    }
}

/// The renames of an installation: the one that moves the old directory away, and the
/// one that moves the new one in.
spec fn renames(scope: Scope, set: Seq<char>, pid: u32) -> (Deed, Deed) {
    let dest = store::set_path(scope, set);
    let tmp = store::beside(scope, set, ".new-"@, pid);
    let old_dir = store::beside(scope, set, ".old-"@, pid);
    (Deed::Rename { from: dest, to: old_dir }, Deed::Rename { from: tmp, to: dest })
}

/// Whether a stage installs a keyset of `n` files: all its steps but two renames do not
/// touch the keyset's directory, and after the second rename none can fail.
spec fn installs(stage: StageModel, n: int, scope: Scope, set: Seq<char>, pid: u32) -> bool {
    let dest = store::set_path(scope, set);
    let old_dir = store::beside(scope, set, ".old-"@, pid);
    let (away, into) = renames(scope, set, pid);
    &&& stage.steps.len() == n + 6
    &&& n >= 0
    &&& stage.refusal is None
    &&& forall|k: int|
        0 <= k < n + 3 ==> !store_laws::touches((#[trigger] stage.steps[k]).deed, dest)
    &&& stage.steps[n + 3].deed == away
    &&& !(stage.steps[n + 3].fault is Ignored)
    &&& stage.steps[n + 4].deed == into
    &&& stage.steps[n + 4].guard is None
    &&& !(stage.steps[n + 4].fault is Ignored)
    &&& stage.steps[n + 5].fault is Ignored
    &&& forall|k: int|
        0 <= k < stage.undo.len() ==> !store_laws::touches(#[trigger] stage.undo[k], dest)
            && !store_laws::touches(stage.undo[k], old_dir)
}

/// Whether a stage does not touch a place, whether it fails or not.
spec fn spares(stage: StageModel, place: Seq<char>) -> bool {
    &&& forall|k: int|
        0 <= k < stage.steps.len() ==> !store_laws::touches((#[trigger] stage.steps[k]).deed, place)
    &&& forall|k: int|
        0 <= k < stage.undo.len() ==> !store_laws::touches(#[trigger] stage.undo[k], place)
}

/// Whether a stage cannot fail.
spec fn cannot_fail(stage: StageModel) -> bool {
    &&& stage.refusal is None
    &&& forall|k: int| 0 <= k < stage.steps.len() ==> (#[trigger] stage.steps[k]).fault is Ignored
}

/// Whether a script installs a keyset in its stage `s`: the stages before it spare the
/// keyset's directory, and those after it cannot fail.
spec fn swaps(
    stages: Seq<StageModel>,
    s: int,
    n: int,
    scope: Scope,
    set: Seq<char>,
    pid: u32,
) -> bool {
    &&& 0 <= s < stages.len()
    &&& installs(stages[s], n, scope, set, pid)
    &&& forall|k: int| 0 <= k < s ==> spares(#[trigger] stages[k], store::set_path(scope, set))
    &&& forall|k: int| s < k < stages.len() ==> cannot_fail(#[trigger] stages[k])
}

/// Whether a script is behind the second rename.
spec fn is_past(run: Run, s: int, n: int) -> bool {
    &&& run.failure is None
    &&& run.stage > s || run.stage == s && run.at >= n + 5
}

/// Whether a script is between the renames, or failed there.
spec fn is_between(run: Run, s: int, n: int) -> bool {
    &&& run.stage == s
    &&& run.failure is Some || run.at == n + 4
}

/// Whether a script is before the second rename, or failed there.
spec fn is_early(run: Run, s: int, n: int) -> bool {
    &&& run.stage <= s
    &&& run.failure is None && run.stage == s ==> run.at <= n + 4
}

/// Moving on stays behind the second rename.
proof fn lemma_settled_past(run: Run, s: int, n: int)
    requires
        is_past(run, s, n),
        0 <= s < run.stages.len(),
        run.stages[s].refusal is None,
        forall|k: int| s < k < run.stages.len() ==> cannot_fail(#[trigger] run.stages[k]),
    ensures
        is_past(script::settled(run), s, n),
    decreases run.stages.len() - run.stage,
{
    if run.stage < run.stages.len() && run.at >= run.stages[run.stage].steps.len() {
        assert(run.stages[run.stage].refusal is None);
        lemma_settled_past(
            Run { stage: run.stage + 1, at: 0, found: false, ..run },
            s,
            n,
        );
    }
}

/// Moving on stays before the second rename.
proof fn lemma_settled_early(run: Run, s: int, n: int)
    requires
        is_early(run, s, n),
        run.failure is None,
        0 <= run.stage,
        0 <= s < run.stages.len(),
        n >= 0,
        run.stages[s].steps.len() == n + 6,
    ensures
        is_early(script::settled(run), s, n),
        run.stage == s ==> script::settled(run) == run,
    decreases s - run.stage,
{
    if run.stage < s && run.at >= run.stages[run.stage].steps.len() {
        if run.stages[run.stage].refusal is None {
            lemma_settled_early(
                Run { stage: run.stage + 1, at: 0, found: false, ..run },
                s,
                n,
            );
        }
    }
}

/// A script that is behind the second rename does not fail any more.
proof fn lemma_past_stays(
    run: Run,
    outcomes: Seq<Outcome>,
    s: int,
    n: int,
    scope: Scope,
    set: Seq<char>,
    pid: u32,
)
    requires
        script::in_place(run),
        swaps(run.stages, s, n, scope, set, pid),
        is_past(run, s, n),
    ensures
        script::ending(run, outcomes).failure is None,
    decreases outcomes.len(),
{
    if outcomes.len() > 0 {
        let next = script::after(run, outcomes[0]);
        script::law_progress(run, outcomes[0]);
        script::lemma_same_stages(run, outcomes[0]);
        if !(script::todo(run) is Finished) {
            let stage = run.stages[run.stage];
            if run.stage == s {
                assert(run.at == n + 5);
            } else {
                assert(cannot_fail(stage));
            }
            assert(stage.steps[run.at].fault is Ignored);
            lemma_settled_past(Run { at: run.at + 1, found: false, ..run }, s, n);
        }
        lemma_past_stays(next, outcomes.drop_first(), s, n, scope, set, pid);
    }
}

/// A script that is between the renames and fails leaves the old files where they were
/// moved to.
proof fn lemma_between_stays(
    run: Run,
    outcomes: Seq<Outcome>,
    disks: Seq<Disk>,
    before: Disk,
    s: int,
    n: int,
    scope: Scope,
    set: Seq<char>,
    pid: u32,
)
    requires
        names::is_set_name(set),
        script::in_place(run),
        swaps(run.stages, s, n, scope, set, pid),
        is_between(run, s, n),
        may_lead(run, outcomes, disks),
        moved(
            before,
            disks[0],
            store::set_path(scope, set),
            store::beside(scope, set, ".old-"@, pid),
        ),
    ensures
        script::ending(run, outcomes).failure is Some ==> moved(
            before,
            disks.last(),
            store::set_path(scope, set),
            store::beside(scope, set, ".old-"@, pid),
        ),
    decreases outcomes.len(),
{
    let dest = store::set_path(scope, set);
    let old_dir = store::beside(scope, set, ".old-"@, pid);
    if outcomes.len() > 0 {
        let next = script::after(run, outcomes[0]);
        script::law_progress(run, outcomes[0]);
        script::lemma_same_stages(run, outcomes[0]);
        let stage = run.stages[s];
        if run.failure is None && !(outcomes[0] is Failed) {
            assert(script::todo(run) is Perform);
            lemma_settled_past(Run { at: run.at + 1, found: false, ..run }, s, n);
            lemma_past_stays(next, outcomes.drop_first(), s, n, scope, set, pid);
        } else {
            if run.failure is Some && script::todo(run) is Perform {
                lemma_left(disks[0], stage.undo[run.at], outcomes[0], disks[1], old_dir);
                assert forall|p: Seq<char>| store_laws::within(p, dest) implies disks[1](
                    old_dir + p.skip(dest.len() as int),
                ) == #[trigger] before(p) by {
                    disk::lemma_below(p, dest, old_dir);
                }
            }
            assert(disks.drop_first().last() == disks.last());
            lemma_between_stays(
                next,
                outcomes.drop_first(),
                disks.drop_first(),
                before,
                s,
                n,
                scope,
                set,
                pid,
            );
        }
    } else {
        assert(disks.last() == disks[0]);
    }
}

/// A script that has not come behind the second rename and fails leaves the keyset's
/// files as they were or, where the first rename was done, where that moved them to.
proof fn lemma_early_stays(
    run: Run,
    outcomes: Seq<Outcome>,
    disks: Seq<Disk>,
    before: Disk,
    s: int,
    n: int,
    scope: Scope,
    set: Seq<char>,
    pid: u32,
)
    requires
        names::is_set_name(set),
        script::in_place(run),
        swaps(run.stages, s, n, scope, set, pid),
        is_early(run, s, n),
        may_lead(run, outcomes, disks),
        kept(before, disks[0], store::set_path(scope, set)),
    ensures
        script::ending(run, outcomes).failure is Some ==> left_whole(
            run,
            outcomes,
            before,
            disks.last(),
            scope,
            set,
            pid,
        ),
    decreases outcomes.len(),
{
    let dest = store::set_path(scope, set);
    let old_dir = store::beside(scope, set, ".old-"@, pid);
    let (away, into) = renames(scope, set, pid);
    assert(store_laws::touches(away, dest));
    if outcomes.len() == 0 {
        assert(disks.last() == disks[0]);
    } else {
        let next = script::after(run, outcomes[0]);
        let rest = outcomes.drop_first();
        let later = disks.drop_first();
        let stage = run.stages[run.stage];
        script::law_progress(run, outcomes[0]);
        script::lemma_same_stages(run, outcomes[0]);
        assert(later.last() == disks.last());
        let step = Run { at: run.at + 1, found: false, ..run };
        let swap = run.failure is None && script::todo(run) is Perform && run.stage == s;
        if swap && run.at == n + 4 && !(outcomes[0] is Failed) {
            lemma_settled_past(step, s, n);
            lemma_past_stays(next, rest, s, n, scope, set, pid);
        } else if swap && run.at == n + 3 && !(outcomes[0] is Failed) {
            lemma_settled_early(step, s, n);
            assert forall|p: Seq<char>| store_laws::within(p, dest) implies disks[1](
                old_dir + p.skip(dest.len() as int),
            ) == #[trigger] before(p) by {
                disk::lemma_below(p, dest, old_dir);
                let q = old_dir + p.skip(dest.len() as int);
                assert(q.skip(old_dir.len() as int) =~= p.skip(dest.len() as int));
                assert(disks[0](p) == before(p));
            }
            lemma_between_stays(next, rest, later, before, s, n, scope, set, pid);
        } else {
            if let Todo::Perform(deed) = script::todo(run) {
                if !(swap && run.at >= n + 3) {
                    if run.stage < s {
                        assert(spares(stage, dest));
                    }
                    assert(!store_laws::touches(deed, dest));
                    lemma_left(disks[0], deed, outcomes[0], disks[1], dest);
                }
            }
            assert(kept(before, disks[1], dest));
            if run.failure is None && !(run.stage == s && run.at == n + 4) {
                lemma_settled_early(step, s, n);
            }
            lemma_early_stays(next, rest, later, before, s, n, scope, set, pid);
        }
    }
}

/// Whether a keyset's files are all there: what they were or, where the old keyset was
/// moved away, in the hidden directory that it was moved to.
pub open spec fn left_whole(
    run: Run,
    outcomes: Seq<Outcome>,
    before: Disk,
    left: Disk,
    scope: Scope,
    set: Seq<char>,
    pid: u32,
) -> bool {
    let dest = store::set_path(scope, set);
    let old_dir = store::beside(scope, set, ".old-"@, pid);
    if never_done(run, outcomes, Deed::Rename { from: dest, to: old_dir }) {
        kept(before, left, dest)
    } else {
        moved(before, left, dest, old_dir)
    }
}

/// A script that spares a place leaves its files, and does nothing that touches it.
proof fn lemma_spared(
    run: Run,
    outcomes: Seq<Outcome>,
    disks: Seq<Disk>,
    place: Seq<char>,
    deed: Deed,
)
    requires
        script::in_place(run),
        forall|k: int| 0 <= k < run.stages.len() ==> spares(#[trigger] run.stages[k], place),
        may_lead(run, outcomes, disks),
        store_laws::touches(deed, place),
    ensures
        kept(disks[0], disks.last(), place),
        never_done(run, outcomes, deed),
    decreases outcomes.len(),
{
    if outcomes.len() == 0 {
        assert(disks.last() == disks[0]);
    } else {
        let next = script::after(run, outcomes[0]);
        let later = disks.drop_first();
        script::law_progress(run, outcomes[0]);
        script::lemma_same_stages(run, outcomes[0]);
        assert(later.last() == disks.last());
        if let Todo::Perform(d) = script::todo(run) {
            assert(spares(run.stages[run.stage], place));
            assert(!store_laws::touches(d, place));
            lemma_left(disks[0], d, outcomes[0], disks[1], place);
        }
        lemma_spared(next, outcomes.drop_first(), later, place, deed);
        assert(kept(disks[0], disks[1], place));
        assert(kept(disks[1], disks.last(), place));
    }
}

/// The stages of an installation install.
proof fn lemma_installs(scope: Scope, set: Seq<char>, files: Seq<File>, pid: u32, undo: Seq<Deed>)
    requires
        names::is_set_name(set),
        forall|k: int| 0 <= k < undo.len() ==> (#[trigger] undo[k]) is DropKeys,
    ensures
        ({
            let stages = store::install_stages(scope, set, files, pid, undo);
            &&& stages.len() == 2
            &&& spares(stages[0], store::set_path(scope, set))
            &&& installs(stages[1], files.len() as int, scope, set, pid)
        }),
{
    let stages = store::install_stages(scope, set, files, pid, undo);
    let dest = store::set_path(scope, set);
    let tmp = store::beside(scope, set, ".new-"@, pid);
    let old_dir = store::beside(scope, set, ".old-"@, pid);
    store_laws::law_install_swaps(scope, set, files, pid, undo);
    disk::lemma_places_apart(scope, set, pid);
    assert(tmp + Seq::<char>::empty() =~= tmp);
    assert(old_dir + Seq::<char>::empty() =~= old_dir);
    assert(!store_laws::within(tmp + Seq::<char>::empty(), old_dir));
    assert(!store_laws::within(old_dir + Seq::<char>::empty(), tmp));
    let all = stages[1].undo;
    assert forall|k: int| 0 <= k < all.len() implies !store_laws::touches(#[trigger] all[k], dest)
        && !store_laws::touches(all[k], old_dir) by {
        if k > 0 {
            assert(all[k] == undo[k - 1]);
        }
    }
}

/// A keyset that cannot be stored is not lost: whatever fails, and however far it got,
/// the files of the keyset that was there are what they were. The one exception is where
/// the old keyset was moved away and the new one could not be moved in: then the old
/// files are all in the hidden directory.
pub proof fn law_failed_store_keeps(
    scope: Scope,
    set: Seq<char>,
    ttl: Option<u32>,
    id: KeyId,
    generation: Seq<u8>,
    sealed: Result<Seq<File>, Seq<char>>,
    pid: u32,
    outcomes: Seq<Outcome>,
    disks: Seq<Disk>,
)
    requires
        names::is_set_name(set),
        may_lead(
            script::start(store::store_stages(scope, set, ttl, id, generation, sealed, pid)),
            outcomes,
            disks,
        ),
        script::ending(
            script::start(store::store_stages(scope, set, ttl, id, generation, sealed, pid)),
            outcomes,
        ).failure is Some,
    ensures
        left_whole(
            script::start(store::store_stages(scope, set, ttl, id, generation, sealed, pid)),
            outcomes,
            disks[0],
            disks.last(),
            scope,
            set,
            pid,
        ),
{
    let stages = store::store_stages(scope, set, ttl, id, generation, sealed, pid);
    let dest = store::set_path(scope, set);
    let (away, into) = renames(scope, set, pid);
    let run = script::start(stages);
    let first = Run { stages, stage: 0, at: 0, found: false, failure: None };
    let undo = store::drop_deeds(Some((scope.root, names::key_description(set, generation))));
    script::law_starts_in_place(stages);
    script::lemma_start_stages(stages);
    assert(stages[0] == store::secure_stage(scope, id, ttl));
    assert(spares(stages[0], dest));
    match sealed {
        Ok(files) => {
            let n = files.len() as int;
            let install = store::install_stages(scope, set, files, pid, undo);
            lemma_installs(scope, set, files, pid, undo);
            assert(stages[1] == install[0] && stages[2] == install[1]);
            assert(stages.len() == 4 && cannot_fail(stages[3]));
            assert(swaps(stages, 2, n, scope, set, pid));
            lemma_settled_early(first, 2, n);
            lemma_early_stays(run, outcomes, disks, disks[0], 2, n, scope, set, pid);
        },
        Err(_) => {
            assert(stages.len() == 3 && spares(stages[1], dest) && spares(stages[2], dest));
            assert(store_laws::touches(away, dest));
            lemma_spared(run, outcomes, disks, dest, away);
        },
    }
}

/// A merge that fails loses nothing either: the keyset's files are what they were or,
/// where the old keyset was moved away and the new one could not be moved in, all in the
/// hidden directory.
pub proof fn law_failed_merge_keeps(
    scope: Scope,
    set: Seq<char>,
    files: Seq<File>,
    pid: u32,
    outcomes: Seq<Outcome>,
    disks: Seq<Disk>,
)
    requires
        names::is_set_name(set),
        may_lead(
            script::start(store::install_stages(scope, set, files, pid, Seq::empty())),
            outcomes,
            disks,
        ),
        script::ending(
            script::start(store::install_stages(scope, set, files, pid, Seq::empty())),
            outcomes,
        ).failure is Some,
    ensures
        left_whole(
            script::start(store::install_stages(scope, set, files, pid, Seq::empty())),
            outcomes,
            disks[0],
            disks.last(),
            scope,
            set,
            pid,
        ),
{
    let stages = store::install_stages(scope, set, files, pid, Seq::empty());
    let n = files.len() as int;
    script::law_starts_in_place(stages);
    script::lemma_start_stages(stages);
    lemma_installs(scope, set, files, pid, Seq::empty());
    assert(swaps(stages, 1, n, scope, set, pid));
    lemma_settled_early(
        Run { stages, stage: 0, at: 0, found: false, failure: None },
        1,
        n,
    );
    lemma_early_stays(
        script::start(stages),
        outcomes,
        disks,
        disks[0],
        1,
        n,
        scope,
        set,
        pid,
    );
}

/// A key that cannot be set is not lost: whatever fails, the files of all the keyset's
/// keys are what they were, that of the key among them.
pub proof fn law_failed_set_keeps(
    scope: Scope,
    set: Seq<char>,
    key: Seq<char>,
    other: Seq<char>,
    bytes: Seq<u8>,
    pid: u32,
    outcomes: Seq<Outcome>,
    disks: Seq<Disk>,
)
    requires
        parse::is_name(key),
        parse::is_name(other),
        may_lead(
            script::start(seq![store::replace_stage(scope, set, key, bytes, pid)]),
            outcomes,
            disks,
        ),
        script::ending(
            script::start(seq![store::replace_stage(scope, set, key, bytes, pid)]),
            outcomes,
        ).failure is Some,
    ensures
        kept(disks[0], disks.last(), store::key_path(scope, set, other)),
{
    let stages = seq![store::replace_stage(scope, set, key, bytes, pid)];
    script::law_starts_in_place(stages);
    script::lemma_start_stages(stages);
    store_laws::law_replace_touches_one(scope, set, key, other, bytes, pid);
    lemma_set_stays(
        script::start(stages),
        outcomes,
        disks,
        store::key_path(scope, set, other),
    );
}

/// A script of one stage, of whose steps only the last touches a place and is a rename,
/// leaves the place's files where it fails.
proof fn lemma_set_stays(run: Run, outcomes: Seq<Outcome>, disks: Seq<Disk>, place: Seq<char>)
    requires
        script::in_place(run),
        run.stages.len() == 1,
        run.stages[0].refusal is None,
        run.stages[0].steps.len() == 3,
        !store_laws::touches(run.stages[0].steps[0].deed, place),
        !store_laws::touches(run.stages[0].steps[1].deed, place),
        run.stages[0].steps[2].deed is Rename,
        forall|k: int|
            0 <= k < run.stages[0].undo.len() ==> !store_laws::touches(
                #[trigger] run.stages[0].undo[k],
                place,
            ),
        may_lead(run, outcomes, disks),
        script::ending(run, outcomes).failure is Some,
    ensures
        kept(disks[0], disks.last(), place),
    decreases outcomes.len(),
{
    if outcomes.len() == 0 {
        assert(disks.last() == disks[0]);
    } else {
        let next = script::after(run, outcomes[0]);
        let rest = outcomes.drop_first();
        let later = disks.drop_first();
        let stage = run.stages[0];
        script::law_progress(run, outcomes[0]);
        script::lemma_same_stages(run, outcomes[0]);
        assert(later.last() == disks.last());
        reveal_with_fuel(script::settled, 2);
        if let Todo::Perform(deed) = script::todo(run) {
            if run.failure is None && run.at == 2 {
                if !(outcomes[0] is Failed) {
                    assert(next.stage == 1);
                    lemma_finished(next, rest);
                    assert(false);
                }
            } else {
                assert(!store_laws::touches(deed, place));
                lemma_left(disks[0], deed, outcomes[0], disks[1], place);
            }
        }
        lemma_set_stays(next, rest, later, place);
        assert(kept(disks[0], disks[1], place));
        assert(kept(disks[1], disks.last(), place));
    }
}

/// A script that is finished without having failed stays so.
proof fn lemma_finished(run: Run, outcomes: Seq<Outcome>)
    requires
        run.stage >= run.stages.len(),
        run.failure is None,
    ensures
        script::ending(run, outcomes).failure is None,
    decreases outcomes.len(),
{
    if outcomes.len() > 0 {
        lemma_finished(run, outcomes.drop_first());
    }
}

} // verus!
