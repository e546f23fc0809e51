//! Storing keysets: sealing secrets into files, and the scripts that put the files
//! and their encryption key into place.
use vstd::prelude::*;
use vstd::string::*;
use crate::errors;
use crate::errors::OsError;
use crate::names;
use crate::parse;
use crate::parse::Entry;
use crate::scope;
use crate::scope::Scope;
use crate::script;
use crate::script::{Blame, Deed, Fault, Op, Stage, StageModel, Step, StepModel};
use crate::seal;
use crate::seal::{Draws, File};
use crate::secret::Secret;
use crate::sys;
use crate::sys::{Call, KeyId};
use crate::text;
use crate::ttl;
use crate::vault;
use crate::vault::{Generation, Header};

verus! {

/// The file name of a key.
pub open spec fn file_name(key: Seq<char>) -> Seq<char> {
    key + names::EXT@
}

/// The path of a keyset's directory.
pub open spec fn set_path(scope: Scope, set: Seq<char>) -> Seq<char> {
    scope::under(scope.dir@, set)
}

/// The path of a key's file.
pub open spec fn key_path(scope: Scope, set: Seq<char>, key: Seq<char>) -> Seq<char> {
    scope::under(set_path(scope, set), file_name(key))
}

/// The path of a keyset's directory.
pub fn set_dir(scope: &Scope, set: &str) -> (r: String)
    ensures
        r@ == set_path(*scope, set@),
{
    scope::path(scope.dir.as_str(), set)
}

/// The path of a key's file.
pub fn key_file(scope: &Scope, set: &str, key: &str) -> (r: String)
    ensures
        r@ == key_path(*scope, set@, key@),
{
    scope::path(set_dir(scope, set).as_str(), text::join2(key, names::EXT).as_str())
}

/// The path of a hidden entry beside a keyset, named after it and a process.
pub open spec fn beside(scope: Scope, set: Seq<char>, tag: Seq<char>, pid: u32) -> Seq<char> {
    scope::under(scope.dir@, "."@ + set + tag + text::decimal(pid as nat))
}

/// The path of a hidden entry beside a keyset, named after it and a process.
fn path_beside(scope: &Scope, set: &str, tag: &str, pid: u32) -> (r: String)
    ensures
        r@ == beside(*scope, set@, tag@, pid),
{
    let name = text::join4(".", set, tag, text::decimal_text(pid as u64).as_str());
    scope::path(scope.dir.as_str(), name.as_str())
}

/// A step that is always taken.
pub open spec fn plain(deed: Deed, fault: Fault) -> StepModel {
    StepModel { guard: None, deed, fault }
}

/// A step that is always taken.
pub(crate) fn step(op: Op, blame: Blame) -> (r: Step)
    ensures
        r@ == plain(op@, blame@),
{
    Step { guard: None, op, blame }
}

/// Adds a step to a list.
pub(crate) fn then_step(list: &mut Vec<Step>, step: Step)
    ensures
        script::step_models(final(list)@) == script::step_models(old(list)@).push(step@),
{
    list.push(step);
    assert(script::step_models(list@) =~= script::step_models(old(list)@).push(step@));
}

/// Adds an operation to a list.
fn then_op(list: &mut Vec<Op>, op: Op)
    ensures
        script::deeds(final(list)@) == script::deeds(old(list)@).push(op@),
{
    list.push(op);
    assert(script::deeds(list@) =~= script::deeds(old(list)@).push(op@));
}

/// Adds a stage to a list.
fn then_stage(list: &mut Vec<Stage>, stage: Stage)
    ensures
        script::stage_models(final(list)@) == script::stage_models(old(list)@).push(stage@),
{
    list.push(stage);
    assert(script::stage_models(list@) =~= script::stage_models(old(list)@).push(stage@));
}

/// Makes the encryption key expire, restricts it, and puts it into the scope's
/// keyring.
///
/// Only a possessor may change a key's timeout or permissions, and a process may
/// not possess the target keyring (it doesn't link `@u` from inside a private
/// session). So the key is created in the session keyring, which it does possess,
/// secured there, and then linked into place.
pub open spec fn secure_stage(scope: Scope, id: KeyId, ttl: Option<u32>) -> StageModel {
    let timeout = match ttl {
        Some(secs) => seq![
            plain(Deed::SetTimeout { id, secs }, Fault::Keyring("setting key timeout"@)),
        ],
        None => Seq::<StepModel>::empty(),
    };
    let restrict = seq![
        plain(Deed::SetPerm { id, perm: scope.perm }, Fault::Keyring("restricting key"@)),
    ];
    let place = if scope.root != sys::SESSION_KEYRING {
        seq![
            plain(Deed::Link { id, ring: scope.root }, Fault::Keyring("linking key"@)),
            plain(
                Deed::Unlink { id, ring: sys::SESSION_KEYRING },
                Fault::Keyring("unstaging key"@),
            ),
        ]
    } else {
        Seq::<StepModel>::empty()
    };
    StageModel {
        steps: timeout + restrict + place,
        refusal: None,
        undo: seq![
            Deed::Revoke { id },
            Deed::Unlink { id, ring: sys::SESSION_KEYRING },
            Deed::Unlink { id, ring: scope.root },
        ],
    }
}

/// What secures an encryption key that was created in the session keyring, and
/// puts it into its scope's.
fn create_key(scope: &Scope, id: KeyId, ttl: Option<u32>) -> (r: Stage)
    ensures
        r@ == secure_stage(*scope, id, ttl),
{
    let mut steps: Vec<Step> = Vec::new();
    assert(script::step_models(steps@) =~= Seq::<StepModel>::empty());
    if let Some(secs) = ttl {
        then_step(
            &mut steps,
            step(Op::SetTimeout { id, secs }, Blame::Keyring("setting key timeout".to_owned())),
        );
    }
    then_step(
        &mut steps,
        step(
            Op::SetPerm { id, perm: scope.perm },
            Blame::Keyring("restricting key".to_owned()),
        ),
    );
    if scope.root != sys::SESSION_KEYRING {
        then_step(
            &mut steps,
            step(Op::Link { id, ring: scope.root }, Blame::Keyring("linking key".to_owned())),
        );
        then_step(
            &mut steps,
            step(
                Op::Unlink { id, ring: sys::SESSION_KEYRING },
                Blame::Keyring("unstaging key".to_owned()),
            ),
        );
    }
    let mut undo: Vec<Op> = Vec::new();
    assert(script::deeds(undo@) =~= Seq::<Deed>::empty());
    then_op(&mut undo, Op::Revoke { id });
    then_op(&mut undo, Op::Unlink { id, ring: sys::SESSION_KEYRING });
    then_op(&mut undo, Op::Unlink { id, ring: scope.root });
    let r = Stage { steps, refusal: None, undo };
    proof {
        let said = secure_stage(*scope, id, ttl);
        assert(r@.steps =~= said.steps);
        assert(r@.undo =~= said.undo);
    }
    r
}

/// Writes the files into a new directory.
pub open spec fn write_steps(base: Seq<char>, dir: Seq<char>, files: Seq<File>) -> Seq<StepModel> {
    files.map_values(
        |f: File|
            plain(
                Deed::WriteNew {
                    path: scope::under(dir, file_name(f.0)),
                    mode: script::FILE_MODE,
                    bytes: f.1,
                },
                Fault::Files(
                    "writing "@ + scope::under(base, scope::under(dir, file_name(f.0))),
                ),
            ),
    )
}

/// Makes `files` the whole contents of keyset `set`. They go into a temporary
/// directory that is swapped in, so readers never see a half-written keyset.
/// Where that fails, `undo` is done too.
pub open spec fn install_stages(
    scope: Scope,
    set: Seq<char>,
    files: Seq<File>,
    pid: u32,
    undo: Seq<Deed>,
) -> Seq<StageModel> {
    let tmp = beside(scope, set, ".new-"@, pid);
    let old_dir = beside(scope, set, ".old-"@, pid);
    let dest = set_path(scope, set);
    seq![
        StageModel {
            steps: seq![
                plain(
                    Deed::MakeDir { path: scope.dir@, mode: script::DIR_MODE },
                    Fault::Files("creating "@ + scope::under(scope.base@, scope.dir@)),
                ),
            ],
            refusal: None,
            undo,
        },
        StageModel {
            steps: seq![
                plain(Deed::RemoveTree { path: tmp }, Fault::Ignored),
                plain(
                    Deed::MakeDir { path: tmp, mode: script::DIR_MODE },
                    Fault::Files("creating "@ + scope::under(scope.base@, tmp)),
                ),
            ] + write_steps(scope.base@, tmp, files) + seq![
                plain(Deed::RemoveTree { path: old_dir }, Fault::Ignored),
                StepModel {
                    guard: Some(dest),
                    deed: Deed::Rename { from: dest, to: old_dir },
                    fault: Fault::Files("replacing keyset"@),
                },
                plain(
                    Deed::Rename { from: tmp, to: dest },
                    Fault::Files("installing keyset"@),
                ),
                plain(Deed::RemoveTree { path: old_dir }, Fault::Ignored),
            ],
            refusal: None,
            undo: seq![Deed::RemoveTree { path: tmp }] + undo,
        },
    ]
}

/// The keys of one description in a keyring, to be dropped.
pub open spec fn drop_deeds(drop: Option<(KeyId, Seq<char>)>) -> Seq<Deed> {
    match drop {
        Some((ring, desc)) => seq![Deed::DropKeys { ring, prefix: desc, keep: None }],
        None => Seq::empty(),
    }
}

/// The keyring and the description that `drop` names.
pub open spec fn dropped(drop: Option<(KeyId, String)>) -> Option<(KeyId, Seq<char>)> {
    match drop {
        Some((ring, desc)) => Some((ring, desc@)),
        None => None,
    }
}

/// Adds what drops the keys of a description.
fn then_drop(list: &mut Vec<Op>, drop: &Option<(KeyId, String)>)
    ensures
        script::deeds(final(list)@) == script::deeds(old(list)@) + drop_deeds(dropped(*drop)),
{
    match drop {
        Some((ring, desc)) => {
            then_op(
                list,
                Op::DropKeys { ring: *ring, prefix: desc.as_str().to_owned(), keep: None },
            );
        },
        None => {},
    }
    assert(script::deeds(list@) =~= script::deeds(old(list)@) + drop_deeds(dropped(*drop)));
}

/// Adds the steps that write the files into a new directory.
fn then_write(list: &mut Vec<Step>, base: &str, dir: &str, files: &Vec<(String, Vec<u8>)>)
    ensures
        script::step_models(final(list)@) == script::step_models(old(list)@) + write_steps(
            base@,
            dir@,
            seal::files_of(files@),
        ),
{
    let ghost all = write_steps(base@, dir@, seal::files_of(files@));
    let ghost before = script::step_models(list@);
    let mut i: usize = 0;
    assert(before + all.take(0) =~= before);
    while i < files.len()
        invariant
            i <= files@.len(),
            all == write_steps(base@, dir@, seal::files_of(files@)),
            script::step_models(list@) == before + all.take(i as int),
        decreases files@.len() - i,
    {
        let path = scope::path(dir, text::join2(files[i].0.as_str(), names::EXT).as_str());
        let shown = scope::path(base, path.as_str());
        let what = text::join2("writing ", shown.as_str());
        let bytes = vstd::slice::slice_to_vec(files[i].1.as_slice());
        let op = Op::WriteNew { path, mode: script::FILE_MODE, bytes };
        then_step(list, step(op, Blame::Files(what)));
        proof {
            let f = seal::files_of(files@)[i as int];
            assert(f == (files@[i as int].0@, files@[i as int].1@));
            assert(before + all.take(i + 1) =~= (before + all.take(i as int)).push(all[i as int]));
        }
        i = i + 1;
    }
    assert(all.take(i as int) =~= all);
}

/// The stages that make `files` the whole contents of keyset `set`.
fn install_dir(
    scope: &Scope,
    set: &str,
    files: &Vec<(String, Vec<u8>)>,
    pid: u32,
    drop: &Option<(KeyId, String)>,
) -> (r: (Stage, Stage))
    ensures
        seq![r.0@, r.1@] == install_stages(
            *scope,
            set@,
            seal::files_of(files@),
            pid,
            drop_deeds(dropped(*drop)),
        ),
{
    let tmp = path_beside(scope, set, ".new-", pid);
    let old_dir = path_beside(scope, set, ".old-", pid);
    let dest = set_dir(scope, set);
    let base = scope.base.as_str();

    let mut first: Vec<Step> = Vec::new();
    assert(script::step_models(first@) =~= Seq::<StepModel>::empty());
    then_step(
        &mut first,
        step(
            Op::MakeDir { path: scope.dir.as_str().to_owned(), mode: script::DIR_MODE },
            Blame::Files(
                text::join2("creating ", scope::path(base, scope.dir.as_str()).as_str()),
            ),
        ),
    );
    let mut undo: Vec<Op> = Vec::new();
    assert(script::deeds(undo@) =~= Seq::<Deed>::empty());
    then_drop(&mut undo, drop);
    let make = Stage { steps: first, refusal: None, undo };

    let mut steps: Vec<Step> = Vec::new();
    assert(script::step_models(steps@) =~= Seq::<StepModel>::empty());
    then_step(
        &mut steps,
        step(Op::RemoveTree { path: tmp.as_str().to_owned() }, Blame::Ignored),
    );
    then_step(
        &mut steps,
        step(
            Op::MakeDir { path: tmp.as_str().to_owned(), mode: script::DIR_MODE },
            Blame::Files(text::join2("creating ", scope::path(base, tmp.as_str()).as_str())),
        ),
    );
    then_write(&mut steps, base, tmp.as_str(), files);
    then_step(
        &mut steps,
        step(Op::RemoveTree { path: old_dir.as_str().to_owned() }, Blame::Ignored),
    );
    then_step(
        &mut steps,
        Step {
            guard: Some(dest.as_str().to_owned()),
            op: Op::Rename { from: dest.as_str().to_owned(), to: old_dir.as_str().to_owned() },
            blame: Blame::Files("replacing keyset".to_owned()),
        },
    );
    then_step(
        &mut steps,
        step(
            Op::Rename { from: tmp.as_str().to_owned(), to: dest },
            Blame::Files("installing keyset".to_owned()),
        ),
    );
    then_step(&mut steps, step(Op::RemoveTree { path: old_dir }, Blame::Ignored));
    let mut undo: Vec<Op> = Vec::new();
    assert(script::deeds(undo@) =~= Seq::<Deed>::empty());
    then_op(&mut undo, Op::RemoveTree { path: tmp });
    then_drop(&mut undo, drop);
    let swap = Stage { steps, refusal: None, undo };
    proof {
        let said = install_stages(
            *scope,
            set@,
            seal::files_of(files@),
            pid,
            drop_deeds(dropped(*drop)),
        );
        assert(make@.steps =~= said[0].steps);
        assert(make@.undo =~= said[0].undo);
        assert(swap@.steps =~= said[1].steps);
        assert(swap@.undo =~= said[1].undo);
        assert(seq![make@, swap@] =~= said);
    }
    (make, swap)
}

/// Whether a call creates the encryption key of a generation in the session keyring.
pub open spec fn adds(
    call: Result<Call, OsError>,
    set: Seq<char>,
    generation: Seq<u8>,
    key: Seq<u8>,
) -> bool {
    &&& call matches Ok(Call::AddKey { kind, desc, payload, ring })
    &&& sys::is_cstr(kind@, "user"@)
    &&& sys::is_cstr(desc@, names::key_description(set, generation))
    &&& payload@ == key
    &&& ring == sys::SESSION_KEYRING
}

/// An encryption key that was drawn for a keyset.
pub struct NewKey {
    set: String,
    key: Secret,
    generation: Generation,
}

impl NewKey {
    #[verifier::type_invariant]
    spec fn inv(self) -> bool {
        names::is_set_name(self.set@)
    }

    /// The name of the keyset.
    pub closed spec fn set(self) -> Seq<char> {
        self.set@
    }

    /// The bytes of the key.
    pub closed spec fn key(self) -> Seq<u8> {
        self.key@
    }

    /// The generation that names the key.
    pub closed spec fn generation(self) -> Generation {
        self.generation
    }

    /// Checks the name of a keyset that is to be stored and takes the encryption key
    /// and the generation that were drawn for it.
    pub fn new(
        set: &str,
        key: Result<Secret, OsError>,
        generation: Result<Generation, OsError>,
    ) -> (r: Result<NewKey, String>)
        ensures
            match r {
                Ok(n) => {
                    &&& names::is_set_name(set@)
                    &&& n.set() == set@
                    &&& key matches Ok(k) && n.key() == k@
                    &&& generation == Ok::<Generation, OsError>(n.generation())
                },
                Err(e) => if !names::is_set_name(set@) {
                    e@ == "invalid keyset name "@ + text::debug_text(set@)
                } else {
                    match (key, generation) {
                        (Err(k), _) => e@ == errors::os_message("random key"@, k),
                        (_, Err(g)) => e@ == errors::os_message("random generation"@, g),
                        _ => false,
                    }
                },
            },
    {
        match names::check_set(set) {
            Ok(_) => {},
            Err(e) => {
                return Err(e);
            },
        }
        match key {
            Ok(key) => match generation {
                Ok(generation) => Ok(NewKey { set: set.to_owned(), key, generation }),
                Err(e) => Err(errors::os_err("random generation", &e)),
            },
            Err(e) => Err(errors::os_err("random key", &e)),
        }
    }

    /// The call that creates the encryption key in the session keyring.
    pub fn add_key(&self) -> (r: Result<Call, OsError>)
        ensures
            adds(r, self.set(), self.generation()@, self.key()),
    {
        proof {
            use_type_invariant(self);
            names::lemma_description_plain(self.set@, self.generation@);
        }
        let desc = names::key_desc(self.set.as_str(), &self.generation);
        sys::add_user_key(desc.as_str(), self.key.0.as_slice(), sys::SESSION_KEYRING)
    }

    /// The encryption key in the keyring, or why it could not be created.
    pub fn added(self, reply: Result<i64, OsError>) -> (r: Result<AddedKey, String>)
        ensures
            match reply {
                Ok(id) => r matches Ok(a) && a.new_key() == self && a.id() == id as i32,
                Err(e) => r matches Err(m) && m@ == errors::os_message(
                    "storing encryption key"@,
                    e,
                ),
            },
    {
        match reply {
            Ok(id) => Ok(AddedKey { new: self, id: sys::key_of(id) }),
            Err(e) => Err(errors::os_err("storing encryption key", &e)),
        }
    }
}

/// An encryption key that was created in the session keyring.
pub struct AddedKey {
    new: NewKey,
    id: KeyId,
}

impl AddedKey {
    /// The key that was created.
    pub closed spec fn new_key(self) -> NewKey {
        self.new
    }

    /// Its ID.
    pub closed spec fn id(self) -> KeyId {
        self.id
    }
}

/// The header of the files that are sealed with a new key.
pub open spec fn new_header(new: NewKey, ttl: Option<u32>, now: u64) -> Header {
    Header { generation: new.generation(), expiry: ttl::expiry_at(ttl, now) as u64 }
}

/// Replaces `set` with the sealed files, once its encryption key is in the session
/// keyring: the key is secured and put into place, and only then the files are,
/// which are unreadable without it. Where the files cannot be had or installed, the
/// key is dropped again. At last the older generations of the keyset are dropped,
/// which can no longer decrypt anything.
pub open spec fn store_stages(
    scope: Scope,
    set: Seq<char>,
    ttl: Option<u32>,
    id: KeyId,
    generation: Seq<u8>,
    sealed: Result<Seq<File>, Seq<char>>,
    pid: u32,
) -> Seq<StageModel> {
    let desc = names::key_description(set, generation);
    let undo = drop_deeds(Some((scope.root, desc)));
    let build = match sealed {
        Ok(files) => install_stages(scope, set, files, pid, undo),
        Err(e) => seq![StageModel { steps: Seq::empty(), refusal: Some(e), undo }],
    };
    let last = StageModel {
        steps: seq![
            plain(
                Deed::DropKeys {
                    ring: scope.root,
                    prefix: names::set_prefix(set),
                    keep: Some(desc),
                },
                Fault::Ignored,
            ),
        ],
        refusal: None,
        undo: Seq::empty(),
    };
    seq![secure_stage(scope, id, ttl)] + build + seq![last]
}

/// The script that replaces a keyset in `scope` with `entries`, encrypted under a
/// fresh key, which is in the session keyring. The files that it writes hold the
/// entries.
pub fn store_keyset(
    scope: &Scope,
    added: &AddedKey,
    ttl: Option<u32>,
    now: u64,
    entries: &Vec<(String, Secret)>,
    draws: &Draws,
    pid: u32,
) -> (r: Vec<Stage>)
    requires
        ttl::expiry_at(ttl, now) <= u64::MAX,
        draws.cover(entries@.len()),
        seal::can_seal(entries@),
    ensures
        ({
            let new = added.new_key();
            let header = new_header(new, ttl, now);
            let list = parse::entries(entries@);
            let sealed = seal::sealed_entries(new.key(), header, new.set(), list, *draws, 0);
            &&& script::stage_models(r@) == store_stages(
                *scope,
                new.set(),
                ttl,
                added.id(),
                new.generation()@,
                sealed,
                pid,
            )
            &&& sealed matches Ok(files) ==> seal::hold_all(
                new.key(),
                header,
                new.set(),
                list,
                files,
            )
        }),
{
    let new = &added.new;
    let id: KeyId = added.id;
    let set = new.set.as_str();
    let header = Header { generation: new.generation, expiry: ttl::expiry_from(ttl, now) };
    let desc = names::key_desc(set, &new.generation);
    let drop = Some((scope.root, desc.as_str().to_owned()));
    let mut stages: Vec<Stage> = Vec::new();
    assert(script::stage_models(stages@) =~= Seq::<StageModel>::empty());
    then_stage(&mut stages, create_key(scope, id, ttl));
    let sealed = seal::seal_files(new.key.0.as_slice(), &header, set, entries, draws);
    let ghost said = match &sealed {
        Ok(files) => Ok::<Seq<File>, Seq<char>>(seal::files_of(files@)),
        Err(e) => Err(e@),
    };
    match sealed {
        Ok(files) => {
            let (make, swap) = install_dir(scope, set, &files, pid, &drop);
            then_stage(&mut stages, make);
            then_stage(&mut stages, swap);
        },
        Err(e) => {
            let mut undo: Vec<Op> = Vec::new();
            assert(script::deeds(undo@) =~= Seq::<Deed>::empty());
            then_drop(&mut undo, &drop);
            let stage = Stage { steps: Vec::new(), refusal: Some(e), undo };
            proof {
                assert(stage@.steps =~= Seq::<StepModel>::empty());
                assert(stage@.undo =~= drop_deeds(Some((scope.root, desc@))));
            }
            then_stage(&mut stages, stage);
        },
    }
    let mut steps: Vec<Step> = Vec::new();
    assert(script::step_models(steps@) =~= Seq::<StepModel>::empty());
    then_step(
        &mut steps,
        step(
            Op::DropKeys { ring: scope.root, prefix: names::key_prefix(set), keep: Some(desc) },
            Blame::Ignored,
        ),
    );
    let last = Stage { steps, refusal: None, undo: Vec::new() };
    proof {
        let all = store_stages(*scope, set@, ttl, id, new.generation@, said, pid);
        assert(last@.steps =~= all.last().steps);
        assert(last@.undo =~= all.last().undo);
    }
    then_stage(&mut stages, last);
    assert(script::stage_models(stages@) =~= store_stages(
        *scope,
        set@,
        ttl,
        id,
        new.generation@,
        said,
        pid,
    ));
    stages
}

/// A list with one stage.
pub(crate) fn single(stage: Stage) -> (r: Vec<Stage>)
    ensures
        script::stage_models(r@) == seq![stage@],
{
    let mut stages: Vec<Stage> = Vec::new();
    assert(script::stage_models(stages@) =~= Seq::<StageModel>::empty());
    then_stage(&mut stages, stage);
    assert(script::stage_models(stages@) =~= seq![stage@]);
    stages
}

/// A script of one step, with nothing to undo.
pub fn lone_step(op: Op, blame: Blame) -> (r: Vec<Stage>)
    ensures
        script::stage_models(r@) == seq![
            StageModel {
                steps: seq![plain(op@, blame@)],
                refusal: None,
                undo: Seq::empty(),
            },
        ],
{
    let ghost said = plain(op@, blame@);
    let mut steps: Vec<Step> = Vec::new();
    assert(script::step_models(steps@) =~= Seq::<StepModel>::empty());
    then_step(&mut steps, step(op, blame));
    let stage = Stage { steps, refusal: None, undo: Vec::new() };
    assert(stage@.steps =~= seq![said]);
    assert(stage@.undo =~= Seq::<Deed>::empty());
    single(stage)
}

/// The header (key generation and expiry) shared by an existing keyset's files, from
/// what came of reading the first of them. There is nothing to read where the keyset
/// has no files, or is not there.
pub fn existing_header(first: Option<Result<Vec<u8>, OsError>>) -> (r: Result<
    Option<Header>,
    String,
>)
    ensures
        match first {
            None => r matches Ok(None),
            Some(Err(e)) => r matches Err(m) && m@ == errors::io_message("reading keyset"@, e),
            Some(Ok(file)) => match r {
                Ok(Some(h)) => vault::is_file(file@) && h.generation@ == vault::generation_of(
                    file@,
                ) && h.expiry == vault::expiry_of(file@),
                Ok(None) => false,
                Err(m) => !vault::is_file(file@) && m@ == "not a tempkeys secret file"@,
            },
        },
{
    match first {
        None => Ok(None),
        Some(Err(e)) => Err(errors::io_err("reading keyset", &e)),
        Some(Ok(file)) => match vault::parse_header(file.as_slice()) {
            Ok(h) => Ok(Some(h)),
            Err(e) => Err(e),
        },
    }
}

/// Whether an entry has the given name.
pub open spec fn has_entry(list: Seq<Entry>, name: Seq<char>) -> bool {
    exists|i: int| 0 <= i < list.len() && (#[trigger] list[i]).0 == name
}

/// The names that no entry has.
pub open spec fn others(list: Seq<Seq<char>>, entries: Seq<Entry>) -> Seq<Seq<char>>
    decreases list.len(),
{
    if list.len() == 0 {
        Seq::empty()
    } else if has_entry(entries, list.last()) {
        others(list.drop_last(), entries)
    } else {
        others(list.drop_last(), entries).push(list.last())
    }
}

/// Whether an entry has the given name.
fn names_entry(entries: &Vec<(String, Secret)>, name: &str) -> (r: bool)
    ensures
        r == has_entry(parse::entries(entries@), name@),
{
    let ghost all = parse::entries(entries@);
    let mut i: usize = 0;
    while i < entries.len()
        invariant
            i <= entries@.len(),
            all == parse::entries(entries@),
            forall|k: int| 0 <= k < i ==> (#[trigger] all[k]).0 != name@,
        decreases entries@.len() - i,
    {
        assert(all[i as int].0 == entries@[i as int].0@);
        if text::same(entries[i].0.as_str(), name) {
            return true;
        }
        i = i + 1;
    }
    false
}

/// The keys of a keyset that a merge leaves as they are.
pub fn kept_names(list: &Vec<String>, entries: &Vec<(String, Secret)>) -> (r: Vec<String>)
    ensures
        names::texts(r@) == others(names::texts(list@), parse::entries(entries@)),
{
    let ghost all = names::texts(list@);
    let mut out: Vec<String> = Vec::new();
    let mut i: usize = 0;
    assert(all.take(0) =~= Seq::<Seq<char>>::empty());
    assert(names::texts(out@) =~= Seq::<Seq<char>>::empty());
    while i < list.len()
        invariant
            i <= list@.len(),
            all == names::texts(list@),
            names::texts(out@) == others(all.take(i as int), parse::entries(entries@)),
        decreases list@.len() - i,
    {
        proof {
            assert(all.take(i + 1).drop_last() =~= all.take(i as int));
            assert(all.take(i + 1).last() == list@[i as int]@);
        }
        if !names_entry(entries, list[i].as_str()) {
            let ghost old_out = out@;
            out.push(list[i].as_str().to_owned());
            assert(names::texts(out@) =~= names::texts(old_out).push(list@[i as int]@));
        }
        i = i + 1;
    }
    assert(all.take(i as int) =~= all);
    out
}

/// A file that a merge carries over, byte for byte: same key, same associated data.
pub fn carried(name: &str, reply: Result<Vec<u8>, OsError>) -> (r: Result<
    (String, Vec<u8>),
    String,
>)
    ensures
        match reply {
            Ok(bytes) => r matches Ok((n, b)) && n@ == name@ && b == bytes,
            Err(e) => r matches Err(m) && m@ == errors::io_message("reading "@ + name@, e),
        },
{
    match reply {
        Ok(bytes) => Ok((name.to_owned(), bytes)),
        Err(e) => Err(errors::io_err(text::join2("reading ", name).as_str(), &e)),
    }
}

/// The files of a keyset that entries were merged into: those carried over, and the
/// entries' own.
pub open spec fn merged_files(kept: Seq<File>, sealed: Result<Seq<File>, Seq<char>>) -> Result<
    Seq<File>,
    Seq<char>,
> {
    match sealed {
        Ok(files) => Ok(kept + files),
        Err(e) => Err(e),
    }
}

/// The script that adds or replaces `entries` in an existing keyset, keeping its
/// other keys, its encryption key and its expiry, and the number of keys that the
/// keyset then has.
pub fn merge_keyset(
    scope: &Scope,
    set: &str,
    header: &Header,
    key: &Secret,
    kept: Vec<(String, Vec<u8>)>,
    entries: &Vec<(String, Secret)>,
    draws: &Draws,
    pid: u32,
) -> (r: Result<(Vec<Stage>, usize), String>)
    requires
        draws.cover(entries@.len()),
        seal::can_seal(entries@),
    ensures
        match merged_files(
            seal::files_of(kept@),
            seal::sealed_entries(key@, *header, set@, parse::entries(entries@), *draws, 0),
        ) {
            Ok(files) => r matches Ok((stages, total)) && total == files.len()
                && script::stage_models(stages@) == install_stages(
                *scope,
                set@,
                files,
                pid,
                Seq::empty(),
            ),
            Err(e) => r matches Err(m) && m@ == e,
        },
        seal::sealed_entries(key@, *header, set@, parse::entries(entries@), *draws, 0) matches Ok(
            files,
        ) ==> seal::hold_all(key@, *header, set@, parse::entries(entries@), files),
{
    let sealed = match seal::seal_files(key.0.as_slice(), header, set, entries, draws) {
        Ok(files) => files,
        Err(e) => {
            return Err(e);
        },
    };
    let ghost front = seal::files_of(kept@);
    let ghost back = seal::files_of(sealed@);
    let mut files = kept;
    let mut sealed = sealed;
    files.append(&mut sealed);
    assert(seal::files_of(files@) =~= front + back);
    let (make, swap) = install_dir(scope, set, &files, pid, &None);
    let total: usize = files.len();
    let mut stages: Vec<Stage> = Vec::new();
    assert(script::stage_models(stages@) =~= Seq::<StageModel>::empty());
    then_stage(&mut stages, make);
    then_stage(&mut stages, swap);
    assert(script::stage_models(stages@) =~= install_stages(
        *scope,
        set@,
        front + back,
        pid,
        Seq::empty(),
    ));
    Ok((stages, total))
}

/// Writes beside the target and renames over it, so readers see the old or new file,
/// never a partial one.
pub open spec fn replace_stage(
    scope: Scope,
    set: Seq<char>,
    key: Seq<char>,
    bytes: Seq<u8>,
    pid: u32,
) -> StageModel {
    let tmp = scope::under(
        set_path(scope, set),
        "."@ + key + ".tmp-"@ + text::decimal(pid as nat),
    );
    let fault = Fault::Files("writing "@ + key);
    StageModel {
        steps: seq![
            plain(Deed::RemoveFile { path: tmp }, Fault::Ignored),
            plain(Deed::WriteNew { path: tmp, mode: script::FILE_MODE, bytes }, fault),
            plain(Deed::Rename { from: tmp, to: key_path(scope, set, key) }, fault),
        ],
        refusal: None,
        undo: seq![Deed::RemoveFile { path: tmp }],
    }
}

/// The file that a key of an existing keyset gets.
pub open spec fn replacement(
    enc_key: Seq<u8>,
    header: Header,
    set: Seq<char>,
    key: Seq<char>,
    value: Seq<u8>,
    nonce: Result<[u8; 24], OsError>,
) -> Result<Seq<u8>, Seq<char>> {
    match nonce {
        Ok(n) => vault::encrypted(
            enc_key,
            header.generation@,
            header.expiry as nat,
            set,
            key,
            value,
            n@,
        ),
        Err(e) => Err(errors::os_message("random nonce"@, e)),
    }
}

/// A key that is to be set: the names of its keyset and its own.
pub struct Slot {
    set: String,
    key: String,
}

impl Slot {
    #[verifier::type_invariant]
    spec fn inv(self) -> bool {
        names::is_set_name(self.set@) && parse::is_name(self.key@)
    }

    /// The name of the keyset.
    pub closed spec fn set(self) -> Seq<char> {
        self.set@
    }

    /// The name of the key.
    pub closed spec fn key(self) -> Seq<char> {
        self.key@
    }

    /// A key that is to be set. Names under which none can be are refused.
    pub fn new(set: &str, key: &str) -> (r: Result<Slot, String>)
        ensures
            match r {
                Ok(s) => {
                    &&& names::is_set_name(set@)
                    &&& parse::is_name(key@)
                    &&& s.set() == set@
                    &&& s.key() == key@
                },
                Err(e) => if !names::is_set_name(set@) {
                    e@ == "invalid keyset name "@ + text::debug_text(set@)
                } else {
                    !parse::is_name(key@) && e@ == "invalid key name "@ + text::debug_text(key@)
                        + " (use letters, digits, underscore)"@
                },
            },
    {
        match names::check_set(set) {
            Ok(_) => {},
            Err(e) => {
                return Err(e);
            },
        }
        if parse::valid_name(key) {
            Ok(Slot { set: set.to_owned(), key: key.to_owned() })
        } else {
            Err(
                text::join3(
                    "invalid key name ",
                    text::quoted(key).as_str(),
                    " (use letters, digits, underscore)",
                ),
            )
        }
    }

    /// The entry of a new keyset that holds this key alone: a keyset, where the value is
    /// not empty.
    pub fn entry(&self, value: Secret) -> (r: Vec<(String, Secret)>)
        ensures
            parse::entries(r@) == seq![(self.key(), value@)],
            value@.len() > 0 ==> parse::is_keyset(parse::entries(r@)),
    {
        proof {
            use_type_invariant(self);
        }
        let ghost bytes = value@;
        let mut r: Vec<(String, Secret)> = Vec::new();
        r.push((self.key.as_str().to_owned(), value));
        assert(parse::entries(r@) =~= seq![(self.key(), bytes)]);
        r
    }
}

/// The script that adds or replaces one key of an existing keyset, encrypted under
/// the keyset's current key and with its expiry. The file that it writes holds the
/// value, and the other keys are untouched.
pub fn set_key(
    scope: &Scope,
    slot: &Slot,
    header: &Header,
    enc_key: &Secret,
    value: &Secret,
    nonce: Result<[u8; 24], OsError>,
    pid: u32,
) -> (r: Result<Vec<Stage>, String>)
    requires
        !vault::overruns(value@.len() as int),
        value@.len() + 68 <= isize::MAX,
    ensures
        match replacement(enc_key@, *header, slot.set(), slot.key(), value@, nonce) {
            Ok(bytes) => {
                &&& r matches Ok(stages) && script::stage_models(stages@) == seq![
                    replace_stage(*scope, slot.set(), slot.key(), bytes, pid),
                ]
                &&& seal::holds(enc_key@, *header, slot.set(), (slot.key(), value@), bytes)
            },
            Err(e) => r matches Err(m) && m@ == e,
        },
{
    let set = slot.set.as_str();
    let key = slot.key.as_str();
    let bytes = match nonce {
        Ok(n) => match vault::encrypt(
            enc_key.0.as_slice(),
            &header.generation,
            header.expiry,
            set,
            key,
            value.0.as_slice(),
            &n,
        ) {
            Ok(bytes) => bytes,
            Err(e) => {
                return Err(e);
            },
        },
        Err(e) => {
            return Err(errors::os_err("random nonce", &e));
        },
    };
    let ghost file = bytes@;
    let name = text::join4(".", key, ".tmp-", text::decimal_text(pid as u64).as_str());
    let tmp = scope::path(set_dir(scope, set).as_str(), name.as_str());
    let mut steps: Vec<Step> = Vec::new();
    assert(script::step_models(steps@) =~= Seq::<StepModel>::empty());
    then_step(
        &mut steps,
        step(Op::RemoveFile { path: tmp.as_str().to_owned() }, Blame::Ignored),
    );
    then_step(
        &mut steps,
        step(
            Op::WriteNew { path: tmp.as_str().to_owned(), mode: script::FILE_MODE, bytes },
            Blame::Files(text::join2("writing ", key)),
        ),
    );
    then_step(
        &mut steps,
        step(
            Op::Rename { from: tmp.as_str().to_owned(), to: key_file(scope, set, key) },
            Blame::Files(text::join2("writing ", key)),
        ),
    );
    let mut undo: Vec<Op> = Vec::new();
    assert(script::deeds(undo@) =~= Seq::<Deed>::empty());
    then_op(&mut undo, Op::RemoveFile { path: tmp });
    let stage = Stage { steps, refusal: None, undo };
    proof {
        let said = replace_stage(*scope, set@, key@, file, pid);
        assert(stage@.steps =~= said.steps);
        assert(stage@.undo =~= said.undo);
    }
    Ok(single(stage))
}

/// The steps that remove keysets, where each of them may fail.
pub open spec fn remove_steps(scope: Scope, sets: Seq<Seq<char>>) -> Seq<StepModel> {
    sets.map_values(
        |set: Seq<char>|
            plain(Deed::RemoveTree { path: set_path(scope, set) }, Fault::Ignored),
    )
}

/// Removes every keyset of a scope, and its encryption keys.
pub open spec fn clear_all_stage(scope: Scope, sets: Seq<Seq<char>>) -> StageModel {
    StageModel {
        steps: remove_steps(scope, sets).push(
            plain(
                Deed::DropKeys { ring: scope.root, prefix: names::KEY_PREFIX@, keep: None },
                Fault::Ignored,
            ),
        ),
        refusal: None,
        undo: Seq::empty(),
    }
}

/// The script that removes every keyset of a scope, and its encryption keys.
pub fn clear_all(scope: &Scope, sets: &Vec<String>) -> (r: Vec<Stage>)
    ensures
        script::stage_models(r@) == seq![clear_all_stage(*scope, names::texts(sets@))],
{
    let mut steps: Vec<Step> = Vec::new();
    let ghost all = remove_steps(*scope, names::texts(sets@));
    let mut i: usize = 0;
    assert(script::step_models(steps@) =~= all.take(0));
    while i < sets.len()
        invariant
            i <= sets@.len(),
            all == remove_steps(*scope, names::texts(sets@)),
            script::step_models(steps@) == all.take(i as int),
        decreases sets@.len() - i,
    {
        then_step(
            &mut steps,
            step(Op::RemoveTree { path: set_dir(scope, sets[i].as_str()) }, Blame::Ignored),
        );
        proof {
            assert(names::texts(sets@)[i as int] == sets@[i as int]@);
            assert(all.take(i + 1) =~= all.take(i as int).push(all[i as int]));
        }
        i = i + 1;
    }
    assert(all.take(i as int) =~= all);
    then_step(
        &mut steps,
        step(
            Op::DropKeys {
                ring: scope.root,
                prefix: names::KEY_PREFIX.to_owned(),
                keep: None,
            },
            Blame::Ignored,
        ),
    );
    let stage = Stage { steps, refusal: None, undo: Vec::new() };
    proof {
        let said = clear_all_stage(*scope, names::texts(sets@));
        assert(stage@.steps =~= said.steps);
        assert(stage@.undo =~= said.undo);
    }
    single(stage)
}

/// Removes one keyset, and then its encryption keys.
pub open spec fn clear_stage(scope: Scope, set: Seq<char>) -> StageModel {
    StageModel {
        steps: seq![
            plain(
                Deed::RemoveTree { path: set_path(scope, set) },
                Fault::Files("removing keyset"@),
            ),
            plain(
                Deed::DropKeys { ring: scope.root, prefix: names::set_prefix(set), keep: None },
                Fault::Ignored,
            ),
        ],
        refusal: None,
        undo: Seq::empty(),
    }
}

/// The message for a keyset that is not there.
pub open spec fn no_keyset(set: Seq<char>) -> Seq<char> {
    "no keyset "@ + text::debug_text(set)
}

/// The script that removes one keyset and its encryption keys. `present` says
/// whether its directory is there.
pub fn clear(scope: &Scope, set: &str, present: bool) -> (r: Result<Vec<Stage>, String>)
    ensures
        match r {
            Ok(stages) => names::is_set_name(set@) && present && script::stage_models(stages@)
                == seq![clear_stage(*scope, set@)],
            Err(e) => if !names::is_set_name(set@) {
                e@ == "invalid keyset name "@ + text::debug_text(set@)
            } else {
                !present && e@ == no_keyset(set@)
            },
        },
{
    match names::check_set(set) {
        Ok(_) => {},
        Err(e) => {
            return Err(e);
        },
    }
    if !present {
        return Err(text::join2("no keyset ", text::quoted(set).as_str()));
    }
    let mut steps: Vec<Step> = Vec::new();
    assert(script::step_models(steps@) =~= Seq::<StepModel>::empty());
    then_step(
        &mut steps,
        step(
            Op::RemoveTree { path: set_dir(scope, set) },
            Blame::Files("removing keyset".to_owned()),
        ),
    );
    then_step(
        &mut steps,
        step(
            Op::DropKeys { ring: scope.root, prefix: names::key_prefix(set), keep: None },
            Blame::Ignored,
        ),
    );
    let stage = Stage { steps, refusal: None, undo: Vec::new() };
    proof {
        assert(stage@.steps =~= clear_stage(*scope, set@).steps);
        assert(stage@.undo =~= clear_stage(*scope, set@).undo);
    }
    Ok(single(stage))
}

} // verus!
