//! Scripts: changes to the keyring and to files that are made one after the other,
//! and what is undone where one of them fails.
//!
//! A script is made of stages. The steps of a stage are done in order; where one
//! that is needed fails, the rest of the script is left, what the stage says is
//! done to undo it, whatever comes of that, and the script fails. A `Runner` says
//! what to do next and is told what came of it.
use vstd::prelude::*;
use crate::errors;
use crate::errors::OsError;
use crate::sys::KeyId;

verus! {

/// The mode of a file that is written: its owner alone may read and write it.
pub const FILE_MODE: u32 = 0o600;

/// The mode of a directory that is made: its owner alone may list, change and enter it.
pub const DIR_MODE: u32 = 0o700;

/// A change to make. Paths are below the base directory.
pub enum Op {
    /// Makes a key expire after some seconds.
    SetTimeout { id: KeyId, secs: u32 },
    /// Sets who may do what with a key or keyring.
    SetPerm { id: KeyId, perm: u32 },
    /// Links a key into a keyring.
    Link { id: KeyId, ring: KeyId },
    /// Unlinks a key from a keyring.
    Unlink { id: KeyId, ring: KeyId },
    /// Revokes a key.
    Revoke { id: KeyId },
    /// Revokes and unlinks the encryption keys in a keyring whose descriptions begin
    /// with a prefix, except one.
    DropKeys { ring: KeyId, prefix: String, keep: Option<String> },
    /// Makes a directory, and those that it is in, with a mode.
    MakeDir { path: String, mode: u32 },
    /// Removes a directory with all that is in it.
    RemoveTree { path: String },
    /// Removes a directory that is empty.
    RemoveDir { path: String },
    /// Removes a file.
    RemoveFile { path: String },
    /// Writes a file that must not be there yet, with a mode.
    WriteNew { path: String, mode: u32, bytes: Vec<u8> },
    /// Renames a file or directory.
    Rename { from: String, to: String },
}

/// What an `Op` says.
pub enum Deed {
    SetTimeout { id: KeyId, secs: u32 },
    SetPerm { id: KeyId, perm: u32 },
    Link { id: KeyId, ring: KeyId },
    Unlink { id: KeyId, ring: KeyId },
    Revoke { id: KeyId },
    DropKeys { ring: KeyId, prefix: Seq<char>, keep: Option<Seq<char>> },
    MakeDir { path: Seq<char>, mode: u32 },
    RemoveTree { path: Seq<char> },
    RemoveDir { path: Seq<char> },
    RemoveFile { path: Seq<char> },
    WriteNew { path: Seq<char>, mode: u32, bytes: Seq<u8> },
    Rename { from: Seq<char>, to: Seq<char> },
}

impl View for Op {
    type V = Deed;

    open spec fn view(&self) -> Deed {
        match *self {
            Op::SetTimeout { id, secs } => Deed::SetTimeout { id, secs },
            Op::SetPerm { id, perm } => Deed::SetPerm { id, perm },
            Op::Link { id, ring } => Deed::Link { id, ring },
            Op::Unlink { id, ring } => Deed::Unlink { id, ring },
            Op::Revoke { id } => Deed::Revoke { id },
            Op::DropKeys { ring, prefix, keep } => Deed::DropKeys {
                ring,
                prefix: prefix@,
                keep: match keep {
                    Some(k) => Some(k@),
                    None => None,
                },
            },
            Op::MakeDir { path, mode } => Deed::MakeDir { path: path@, mode },
            Op::RemoveTree { path } => Deed::RemoveTree { path: path@ },
            Op::RemoveDir { path } => Deed::RemoveDir { path: path@ },
            Op::RemoveFile { path } => Deed::RemoveFile { path: path@ },
            Op::WriteNew { path, mode, bytes } => Deed::WriteNew {
                path: path@,
                mode,
                bytes: bytes@,
            },
            Op::Rename { from, to } => Deed::Rename { from: from@, to: to@ },
        }
    }
}

/// What a failure of a step means.
pub enum Blame {
    /// Nothing: the step is not needed.
    Ignored,
    /// The script fails, with these words and the error as one of the keyring.
    Keyring(String),
    /// The script fails, with these words and the error.
    Files(String),
}

/// What a `Blame` says.
pub enum Fault {
    Ignored,
    Keyring(Seq<char>),
    Files(Seq<char>),
}

impl View for Blame {
    type V = Fault;

    open spec fn view(&self) -> Fault {
        match *self {
            Blame::Ignored => Fault::Ignored,
            Blame::Keyring(what) => Fault::Keyring(what@),
            Blame::Files(what) => Fault::Files(what@),
        }
    }
}

/// One step of a script.
pub struct Step {
    /// A path without which the step is left out.
    pub guard: Option<String>,
    pub op: Op,
    pub blame: Blame,
}

/// What a `Step` says.
pub struct StepModel {
    pub guard: Option<Seq<char>>,
    pub deed: Deed,
    pub fault: Fault,
}

impl View for Step {
    type V = StepModel;

    open spec fn view(&self) -> StepModel {
        StepModel {
            guard: match self.guard {
                Some(p) => Some(p@),
                None => None,
            },
            deed: self.op@,
            fault: self.blame@,
        }
    }
}

/// Steps that are undone together.
pub struct Stage {
    pub steps: Vec<Step>,
    /// Why the stage fails once its steps are done.
    pub refusal: Option<String>,
    /// What is done where the stage fails, whatever comes of it.
    pub undo: Vec<Op>,
}

/// What a `Stage` says.
pub struct StageModel {
    pub steps: Seq<StepModel>,
    pub refusal: Option<Seq<char>>,
    pub undo: Seq<Deed>,
}

/// The steps of a list.
pub open spec fn step_models(list: Seq<Step>) -> Seq<StepModel> {
    list.map_values(|s: Step| s@)
}

/// The deeds of a list.
pub open spec fn deeds(list: Seq<Op>) -> Seq<Deed> {
    list.map_values(|o: Op| o@)
}

impl View for Stage {
    type V = StageModel;

    open spec fn view(&self) -> StageModel {
        StageModel {
            steps: step_models(self.steps@),
            refusal: match self.refusal {
                Some(e) => Some(e@),
                None => None,
            },
            undo: deeds(self.undo@),
        }
    }
}

/// The stages of a list.
pub open spec fn stage_models(list: Seq<Stage>) -> Seq<StageModel> {
    list.map_values(|s: Stage| s@)
}

/// What came of what the runner asked for.
pub enum Outcome {
    /// It was done; or the path is there.
    Done,
    /// The path is not there.
    Missing,
    /// It failed.
    Failed(OsError),
}

/// How far a script is.
pub struct Run {
    pub stages: Seq<StageModel>,
    /// The stage that it is in.
    pub stage: int,
    /// The step of the stage or, once it failed, of what undoes it.
    pub at: int,
    /// Whether the path without which the step is left out was found.
    pub found: bool,
    /// Why the script fails.
    pub failure: Option<Seq<char>>,
}

/// What is to be done next.
pub enum Todo {
    Probe(Seq<char>),
    Perform(Deed),
    Finished,
}

/// `run`, moved on from stages whose steps are all done.
pub open spec fn settled(run: Run) -> Run
    decreases run.stages.len() - run.stage,
{
    if run.failure is None && 0 <= run.stage < run.stages.len() && run.at
        >= run.stages[run.stage].steps.len() {
        match run.stages[run.stage].refusal {
            Some(e) => Run { at: 0, found: false, failure: Some(e), ..run },
            None => settled(Run { stage: run.stage + 1, at: 0, found: false, ..run }),
        }
    } else {
        run
    }
}

/// A script at its start.
pub open spec fn start(stages: Seq<StageModel>) -> Run {
    settled(Run { stages, stage: 0, at: 0, found: false, failure: None })
}

/// What is to be done next.
pub open spec fn todo(run: Run) -> Todo {
    if run.stage >= run.stages.len() {
        Todo::Finished
    } else if run.failure is Some {
        if run.at < run.stages[run.stage].undo.len() {
            Todo::Perform(run.stages[run.stage].undo[run.at])
        } else {
            Todo::Finished
        }
    } else {
        let step = run.stages[run.stage].steps[run.at];
        match step.guard {
            Some(p) if !run.found => Todo::Probe(p),
            _ => Todo::Perform(step.deed),
        }
    }
}

/// The words with which a script fails, where it does.
pub open spec fn verdict_on(fault: Fault, e: OsError) -> Option<Seq<char>> {
    match fault {
        Fault::Ignored => None,
        Fault::Keyring(what) => Some(errors::os_message(what, e)),
        Fault::Files(what) => Some(errors::io_message(what, e)),
    }
}

/// How far a script is after what it asked for next.
pub open spec fn after(run: Run, outcome: Outcome) -> Run {
    let next = Run { at: run.at + 1, found: false, ..run };
    if todo(run) is Finished {
        run
    } else if run.failure is Some {
        next
    } else if todo(run) is Probe {
        if outcome is Done {
            Run { found: true, ..run }
        } else {
            settled(next)
        }
    } else {
        match outcome {
            Outcome::Failed(e) => match verdict_on(
                run.stages[run.stage].steps[run.at].fault,
                e,
            ) {
                Some(m) => Run { at: 0, found: false, failure: Some(m), ..run },
                None => settled(next),
            },
            _ => settled(next),
        }
    }
}

/// What a runner asks for.
pub enum Action<'a> {
    /// Is this path there?
    Probe(&'a str),
    /// Make this change.
    Perform(&'a Op),
    /// Nothing more: the script is done, or has failed.
    Finished,
}

/// Whether an action is what is to be done.
pub open spec fn is_todo(action: Action, what: Todo) -> bool {
    match action {
        Action::Probe(p) => what == Todo::Probe(p@),
        Action::Perform(op) => what == Todo::Perform(op@),
        Action::Finished => what is Finished,
    }
}

/// Goes through a script.
pub struct Runner {
    stages: Vec<Stage>,
    stage: usize,
    at: usize,
    found: bool,
    failure: Option<String>,
}

impl View for Runner {
    type V = Run;

    closed spec fn view(&self) -> Run {
        Run {
            stages: stage_models(self.stages@),
            stage: self.stage as int,
            at: self.at as int,
            found: self.found,
            failure: match self.failure {
                Some(e) => Some(e@),
                None => None,
            },
        }
    }
}

impl Runner {
    #[verifier::type_invariant]
    spec fn inv(self) -> bool {
        &&& self.stage <= self.stages@.len()
        &&& self.failure is Some ==> self.stage < self.stages@.len() && self.at
            <= self.stages@[self.stage as int].undo@.len()
        &&& self.failure is None && self.stage < self.stages@.len() ==> self.at
            < self.stages@[self.stage as int].steps@.len()
    }

    /// A runner at the start of a script.
    pub fn new(stages: Vec<Stage>) -> (r: Runner)
        ensures
            r@ == start(stage_models(stages@)),
    {
        Runner::settle(stages, 0, 0)
    }

    /// A runner, moved on from stages whose steps are all done.
    fn settle(stages: Vec<Stage>, stage: usize, at: usize) -> (r: Runner)
        requires
            stage <= stages@.len(),
        ensures
            r@ == settled(
                Run {
                    stages: stage_models(stages@),
                    stage: stage as int,
                    at: at as int,
                    found: false,
                    failure: None,
                },
            ),
        decreases stages@.len() - stage,
    {
        let ghost models = stage_models(stages@);
        if stage < stages.len() && at >= stages[stage].steps.len() {
            assert(models[stage as int] == stages@[stage as int]@);
            match &stages[stage].refusal {
                Some(e) => {
                    let failure = Some(e.as_str().to_owned());
                    Runner { stages, stage, at: 0, found: false, failure }
                },
                None => Runner::settle(stages, stage + 1, 0),
            }
        } else {
            proof {
                if stage < stages@.len() {
                    assert(models[stage as int] == stages@[stage as int]@);
                }
            }
            Runner { stages, stage, at, found: false, failure: None }
        }
    }

    /// What is to be done next.
    pub fn action<'a>(&'a self) -> (r: Action<'a>)
        ensures
            is_todo(r, todo(self@)),
    {
        proof {
            use_type_invariant(self);
        }
        if self.stage >= self.stages.len() {
            return Action::Finished;
        }
        let stage = &self.stages[self.stage];
        assert(self@.stages[self.stage as int] == stage@);
        if self.failure.is_some() {
            if self.at < stage.undo.len() {
                assert(stage@.undo[self.at as int] == stage.undo@[self.at as int]@);
                Action::Perform(&stage.undo[self.at])
            } else {
                Action::Finished
            }
        } else {
            let step = &stage.steps[self.at];
            assert(stage@.steps[self.at as int] == step@);
            match &step.guard {
                Some(p) if !self.found => Action::Probe(p.as_str()),
                _ => Action::Perform(&step.op),
            }
        }
    }

    /// Moves on, told what came of what was to be done next.
    pub fn tell(self, outcome: &Outcome) -> (r: Runner)
        ensures
            r@ == after(self@, *outcome),
    {
        proof {
            use_type_invariant(&self);
        }
        let ghost run = self@;
        let Runner { stages, stage, at, found, failure } = self;
        if stage >= stages.len() {
            return Runner { stages, stage, at, found, failure };
        }
        assert(run.stages[stage as int] == stages@[stage as int]@);
        if failure.is_some() {
            if at < stages[stage].undo.len() {
                return Runner { stages, stage, at: at + 1, found: false, failure };
            }
            return Runner { stages, stage, at, found, failure };
        }
        let count: usize = stages[stage].steps.len();
        let step = &stages[stage].steps[at];
        assert(run.stages[stage as int].steps[at as int] == step@);
        assert(at < count);
        if step.guard.is_some() && !found {
            match outcome {
                Outcome::Done => {
                    return Runner { stages, stage, at, found: true, failure };
                },
                _ => {
                    return Runner::settle(stages, stage, at + 1);
                },
            }
        }
        if let Outcome::Failed(e) = outcome {
            let m = match &step.blame {
                Blame::Ignored => None,
                Blame::Keyring(what) => Some(errors::os_err(what.as_str(), e)),
                Blame::Files(what) => Some(errors::io_err(what.as_str(), e)),
            };
            if m.is_some() {
                return Runner { stages, stage, at: 0, found: false, failure: m };
            }
        }
        Runner::settle(stages, stage, at + 1)
    }

    /// Whether the script failed, and why.
    pub fn verdict(self) -> (r: Result<(), String>)
        ensures
            match self@.failure {
                Some(e) => r matches Err(m) && m@ == e,
                None => r is Ok,
            },
    {
        match self.failure {
            Some(e) => Err(e),
            None => Ok(()),
        }
    }
}

/// What is done, one after the other, with the given outcomes.
pub open spec fn trace(run: Run, outcomes: Seq<Outcome>) -> Seq<Deed>
    decreases outcomes.len(),
{
    if outcomes.len() == 0 {
        Seq::empty()
    } else {
        let rest = trace(after(run, outcomes[0]), outcomes.drop_first());
        match todo(run) {
            Todo::Perform(deed) => seq![deed] + rest,
            _ => rest,
        }
    }
}

/// How far a script is after the given outcomes.
pub open spec fn ending(run: Run, outcomes: Seq<Outcome>) -> Run
    decreases outcomes.len(),
{
    if outcomes.len() == 0 {
        run
    } else {
        ending(after(run, outcomes[0]), outcomes.drop_first())
    }
}

/// A script that failed does what undoes the stage, in order, and nothing else.
proof fn lemma_undoing(run: Run, outcomes: Seq<Outcome>)
    requires
        run.failure is Some,
        0 <= run.stage < run.stages.len(),
        0 <= run.at <= run.stages[run.stage].undo.len(),
    ensures
        ({
            let undo = run.stages[run.stage].undo;
            let left = undo.len() - run.at;
            let done = if outcomes.len() < left {
                outcomes.len() as int
            } else {
                left
            };
            &&& trace(run, outcomes) == undo.subrange(run.at, run.at + done)
            &&& ending(run, outcomes).failure == run.failure
            &&& ending(run, outcomes).stage == run.stage
            &&& outcomes.len() >= left ==> todo(ending(run, outcomes)) is Finished
        }),
    decreases outcomes.len(),
{
    let undo = run.stages[run.stage].undo;
    if outcomes.len() == 0 {
        assert(undo.subrange(run.at, run.at) =~= Seq::<Deed>::empty());
    } else {
        let next = after(run, outcomes[0]);
        if run.at < undo.len() {
            lemma_undoing(next, outcomes.drop_first());
            let left = undo.len() - next.at;
            let done = if outcomes.len() - 1 < left {
                outcomes.len() - 1
            } else {
                left
            };
            assert(undo.subrange(run.at, run.at + done + 1) =~= seq![undo[run.at]] + undo.subrange(
                next.at,
                next.at + done,
            ));
        } else {
            lemma_undoing(run, outcomes.drop_first());
            assert(undo.subrange(run.at, run.at) =~= Seq::<Deed>::empty());
        }
    }
}

/// Where a step that is needed fails, the rest of the script is left: all that is
/// done from there on is what undoes the stage, in order and whatever comes of it,
/// and the script fails with the step's words.
pub proof fn law_failure_undoes(run: Run, e: OsError, outcomes: Seq<Outcome>)
    requires
        0 <= run.stage < run.stages.len(),
        0 <= run.at < run.stages[run.stage].steps.len(),
        run.failure is None,
        todo(run) is Perform,
        !(run.stages[run.stage].steps[run.at].fault is Ignored),
        outcomes.len() >= run.stages[run.stage].undo.len(),
    ensures
        ({
            let failed = after(run, Outcome::Failed(e));
            &&& trace(failed, outcomes) == run.stages[run.stage].undo
            &&& todo(ending(failed, outcomes)) is Finished
            &&& ending(failed, outcomes).failure == verdict_on(
                run.stages[run.stage].steps[run.at].fault,
                e,
            )
            &&& ending(failed, outcomes).failure is Some
        }),
{
    let failed = after(run, Outcome::Failed(e));
    lemma_undoing(failed, outcomes);
    let undo = run.stages[run.stage].undo;
    assert(undo.subrange(0, undo.len() as int) =~= undo);
}

/// The deeds of steps, where every path that is asked for is there, or none is.
pub open spec fn step_deeds(steps: Seq<StepModel>, there: bool) -> Seq<Deed>
    decreases steps.len(),
{
    if steps.len() == 0 {
        Seq::empty()
    } else {
        let rest = step_deeds(steps.drop_first(), there);
        if steps[0].guard is Some && !there {
            rest
        } else {
            seq![steps[0].deed] + rest
        }
    }
}

/// All that a script does where nothing fails.
pub open spec fn all_deeds(stages: Seq<StageModel>, there: bool) -> Seq<Deed>
    decreases stages.len(),
{
    if stages.len() == 0 {
        Seq::empty()
    } else {
        step_deeds(stages[0].steps, there) + all_deeds(stages.drop_first(), there)
    }
}

/// Whether nothing fails, and every path that is asked for is there, or none is.
pub open spec fn smooth(run: Run, outcomes: Seq<Outcome>, there: bool) -> bool
    decreases outcomes.len(),
{
    outcomes.len() > 0 ==> {
        &&& match todo(run) {
            Todo::Probe(_) => if there {
                outcomes[0] is Done
            } else {
                outcomes[0] is Missing
            },
            Todo::Perform(_) => outcomes[0] is Done,
            Todo::Finished => true,
        }
        &&& smooth(after(run, outcomes[0]), outcomes.drop_first(), there)
    }
}

/// What is left to do of a script that has not failed.
spec fn left_deeds(run: Run, there: bool) -> Seq<Deed> {
    if run.stage >= run.stages.len() {
        Seq::empty()
    } else {
        step_deeds(run.stages[run.stage].steps.skip(run.at), there) + all_deeds(
            run.stages.skip(run.stage + 1),
            there,
        )
    }
}

/// Moving on from stages that are done leaves the same to do.
proof fn lemma_settled_left(run: Run, there: bool)
    requires
        run.failure is None,
        0 <= run.stage <= run.stages.len(),
        0 <= run.at,
        run.stage < run.stages.len() ==> run.at <= run.stages[run.stage].steps.len(),
        forall|i: int| 0 <= i < run.stages.len() ==> (#[trigger] run.stages[i]).refusal is None,
    ensures
        ({
            let s = settled(run);
            &&& s.failure is None
            &&& s.stages == run.stages
            &&& run.stage <= s.stage <= s.stages.len()
            &&& s.stage < s.stages.len() ==> 0 <= s.at < s.stages[s.stage].steps.len()
            &&& left_deeds(s, there) == left_deeds(run, there)
            &&& s.found ==> run.found
        }),
    decreases run.stages.len() - run.stage,
{
    if run.stage < run.stages.len() && run.at >= run.stages[run.stage].steps.len() {
        let next = Run { stage: run.stage + 1, at: 0, found: false, ..run };
        assert(run.stages[run.stage].refusal is None);
        lemma_settled_left(next, there);
        let rest = run.stages.skip(run.stage + 1);
        assert(step_deeds(run.stages[run.stage].steps.skip(run.at), there) =~= Seq::<
            Deed,
        >::empty());
        if next.stage < run.stages.len() {
            assert(rest[0] == run.stages[next.stage]);
            assert(rest.drop_first() =~= run.stages.skip(next.stage + 1));
            assert(next.stages[next.stage].steps.skip(0) =~= next.stages[next.stage].steps);
        } else {
            assert(rest =~= Seq::<StageModel>::empty());
        }
        assert(left_deeds(run, there) =~= left_deeds(next, there));
    }
}

/// A script all of whose steps succeed does all of them, in order.
proof fn lemma_all_done(run: Run, outcomes: Seq<Outcome>, there: bool)
    requires
        run.failure is None,
        0 <= run.stage <= run.stages.len(),
        run.stage < run.stages.len() ==> 0 <= run.at < run.stages[run.stage].steps.len(),
        run.found ==> there,
        forall|i: int| 0 <= i < run.stages.len() ==> (#[trigger] run.stages[i]).refusal is None,
        smooth(run, outcomes, there),
    ensures
        trace(run, outcomes).is_prefix_of(left_deeds(run, there)),
        ending(run, outcomes).failure is None,
        todo(ending(run, outcomes)) is Finished ==> trace(run, outcomes) == left_deeds(run, there),
    decreases outcomes.len(),
{
    if outcomes.len() == 0 {
        assert(trace(run, outcomes) =~= left_deeds(run, there).subrange(0, 0));
        if todo(run) is Finished {
            assert(left_deeds(run, there) =~= Seq::<Deed>::empty());
        }
    } else {
        let rest = outcomes.drop_first();
        let next = after(run, outcomes[0]);
        if run.stage >= run.stages.len() {
            lemma_all_done(run, rest, there);
        } else {
            let moved = Run { at: run.at + 1, found: false, ..run };
            let steps = run.stages[run.stage].steps;
            let deed = steps[run.at].deed;
            assert(steps.skip(run.at)[0] == steps[run.at]);
            assert(steps.skip(run.at).drop_first() =~= steps.skip(run.at + 1));
            if todo(run) is Probe && there {
                lemma_all_done(next, rest, there);
                assert(left_deeds(next, there) == left_deeds(run, there));
            } else if todo(run) is Probe {
                lemma_settled_left(moved, there);
                lemma_all_done(next, rest, there);
                assert(left_deeds(run, there) =~= left_deeds(moved, there));
            } else {
                lemma_settled_left(moved, there);
                lemma_all_done(next, rest, there);
                assert(left_deeds(run, there) =~= seq![deed] + left_deeds(moved, there));
                let t = trace(next, rest);
                assert(trace(run, outcomes) =~= seq![deed] + t);
                assert(t =~= left_deeds(moved, there).subrange(0, t.len() as int));
                assert(seq![deed] + t =~= left_deeds(run, there).subrange(0, t.len() as int + 1));
            }
        }
    }
}

/// Where nothing fails, what is done is the script's steps in order, without those
/// whose path is not there, and all of them by the time that the script is finished;
/// and a script that no stage refuses does not fail.
pub proof fn law_success_in_order(stages: Seq<StageModel>, outcomes: Seq<Outcome>, there: bool)
    requires
        forall|i: int| 0 <= i < stages.len() ==> (#[trigger] stages[i]).refusal is None,
        smooth(start(stages), outcomes, there),
    ensures
        trace(start(stages), outcomes).is_prefix_of(all_deeds(stages, there)),
        ending(start(stages), outcomes).failure is None,
        todo(ending(start(stages), outcomes)) is Finished ==> trace(start(stages), outcomes)
            == all_deeds(stages, there),
{
    let first = Run { stages, stage: 0, at: 0, found: false, failure: None };
    lemma_settled_left(first, there);
    lemma_all_done(start(stages), outcomes, there);
    if stages.len() > 0 {
        assert(stages[0].steps.skip(0) =~= stages[0].steps);
        assert(stages.skip(1) =~= stages.drop_first());
    }
    assert(left_deeds(first, there) =~= all_deeds(stages, there));
}

/// How many outcomes a stage and those behind it can take at most, and one each.
spec fn stages_left(stages: Seq<StageModel>, from: int) -> nat
    decreases stages.len() - from,
{
    if 0 <= from < stages.len() {
        2 * stages[from].steps.len() + stages[from].undo.len() + 1 + stages_left(stages, from + 1)
    } else {
        0
    }
}

/// How many outcomes a script can still take at most.
pub closed spec fn outcomes_left(run: Run) -> int {
    if run.stage >= run.stages.len() {
        0
    } else if run.failure is Some {
        run.stages[run.stage].undo.len() - run.at
    } else {
        2 * (run.stages[run.stage].steps.len() - run.at) + run.stages[run.stage].undo.len() + 1
            + stages_left(run.stages, run.stage + 1) - if run.found {
            1int
        } else {
            0int
        }
    }
}

/// Whether a script is at a place that it has.
pub open spec fn in_place(run: Run) -> bool {
    &&& 0 <= run.stage <= run.stages.len()
    &&& 0 <= run.at
    &&& run.stage < run.stages.len() && run.failure is Some ==> run.at
        <= run.stages[run.stage].undo.len()
    &&& run.stage < run.stages.len() && run.failure is None ==> run.at
        < run.stages[run.stage].steps.len()
    &&& run.stage == run.stages.len() ==> run.failure is None
}

/// A script starts as itself.
pub proof fn lemma_start_stages(stages: Seq<StageModel>)
    ensures
        start(stages).stages == stages,
{
    lemma_settled_same(Run { stages, stage: 0, at: 0, found: false, failure: None });
}

/// Moving on keeps the script.
pub proof fn lemma_same_stages(run: Run, outcome: Outcome)
    ensures
        after(run, outcome).stages == run.stages,
{
    lemma_settled_same(Run { at: run.at + 1, found: false, ..run });
}

/// Moving on from stages that are done keeps the script.
proof fn lemma_settled_same(run: Run)
    ensures
        settled(run).stages == run.stages,
    decreases run.stages.len() - run.stage,
{
    if run.failure is None && 0 <= run.stage < run.stages.len() && run.at
        >= run.stages[run.stage].steps.len() {
        if run.stages[run.stage].refusal is None {
            lemma_settled_same(Run { stage: run.stage + 1, at: 0, found: false, ..run });
        }
    }
}

/// Moving on from stages that are done takes no more outcomes.
proof fn lemma_settled_less(run: Run)
    requires
        run.failure is None,
        0 <= run.stage <= run.stages.len(),
        0 <= run.at,
        run.stage < run.stages.len() ==> run.at <= run.stages[run.stage].steps.len(),
        !run.found,
    ensures
        in_place(settled(run)),
        settled(run).stages == run.stages,
        0 <= outcomes_left(settled(run)) <= outcomes_left(run),
    decreases run.stages.len() - run.stage,
{
    if run.stage < run.stages.len() && run.at >= run.stages[run.stage].steps.len() {
        if run.stages[run.stage].refusal is None {
            let next = Run { stage: run.stage + 1, at: 0, found: false, ..run };
            lemma_settled_less(next);
        }
    }
}

/// Every script comes to an end: each outcome leaves fewer that it can still take,
/// whatever it is, and one that can take none is finished.
pub proof fn law_progress(run: Run, outcome: Outcome)
    requires
        in_place(run),
    ensures
        in_place(after(run, outcome)),
        outcomes_left(run) >= 0,
        !(todo(run) is Finished) ==> outcomes_left(after(run, outcome)) < outcomes_left(run),
        outcomes_left(run) == 0 ==> todo(run) is Finished,
{
    if !(todo(run) is Finished) && run.failure is None {
        let next = Run { at: run.at + 1, found: false, ..run };
        lemma_settled_less(next);
    }
}

/// A script is at a place that it has when it starts.
pub proof fn law_starts_in_place(stages: Seq<StageModel>)
    ensures
        in_place(start(stages)),
{
    lemma_settled_less(Run { stages, stage: 0, at: 0, found: false, failure: None });
}

/// The deeds of steps one after the other.
pub proof fn lemma_step_deeds_concat(a: Seq<StepModel>, b: Seq<StepModel>, there: bool)
    ensures
        step_deeds(a + b, there) == step_deeds(a, there) + step_deeds(b, there),
    decreases a.len(),
{
    if a.len() == 0 {
        assert(a + b =~= b);
        assert(step_deeds(a, there) + step_deeds(b, there) =~= step_deeds(b, there));
    } else {
        assert((a + b).drop_first() =~= a.drop_first() + b);
        assert((a + b)[0] == a[0]);
        lemma_step_deeds_concat(a.drop_first(), b, there);
        assert(step_deeds(a + b, there) =~= step_deeds(a, there) + step_deeds(b, there));
    }
}

/// The deeds of steps that are always taken.
pub proof fn lemma_step_deeds_plain(steps: Seq<StepModel>, there: bool)
    requires
        forall|i: int| 0 <= i < steps.len() ==> (#[trigger] steps[i]).guard is None,
    ensures
        step_deeds(steps, there) == steps.map_values(|s: StepModel| s.deed),
    decreases steps.len(),
{
    let all = steps.map_values(|s: StepModel| s.deed);
    if steps.len() == 0 {
        assert(all =~= Seq::<Deed>::empty());
    } else {
        let rest = steps.drop_first();
        assert forall|i: int| 0 <= i < rest.len() implies (#[trigger] rest[i]).guard is None by {
            assert(rest[i] == steps[i + 1]);
        }
        lemma_step_deeds_plain(rest, there);
        assert(steps[0].guard is None);
        assert(all =~= seq![steps[0].deed] + rest.map_values(|s: StepModel| s.deed));
    }
}

/// A step that is not needed never fails a script; one that is fails it with what it was
/// about and the error's own words.
pub proof fn law_verdicts(what: Seq<char>, e: OsError)
    ensures
        verdict_on(Fault::Ignored, e) is None,
        verdict_on(Fault::Files(what), e) == Some(what + ": "@ + e.text@),
        verdict_on(Fault::Keyring(what), e) matches Some(m) && (what + ": "@
            + e.text@).is_prefix_of(m),
{
    errors::law_messages(what, e);
}

/// A step that waits for a path is done exactly where the path is there; any other is done
/// without asking. What fails and is not needed does not keep the next from being done.
pub proof fn law_next(run: Run, e: OsError)
    requires
        0 <= run.stage < run.stages.len(),
        0 <= run.at < run.stages[run.stage].steps.len(),
        run.failure is None,
        !run.found,
    ensures
        ({
            let step = run.stages[run.stage].steps[run.at];
            let next = settled(Run { at: run.at + 1, found: false, ..run });
            match step.guard {
                Some(p) => {
                    &&& todo(run) == Todo::Probe(p)
                    &&& todo(after(run, Outcome::Done)) == Todo::Perform(step.deed)
                    &&& after(run, Outcome::Missing) == next
                },
                None => {
                    &&& todo(run) == Todo::Perform(step.deed)
                    &&& after(run, Outcome::Done) == next
                    &&& step.fault is Ignored ==> after(run, Outcome::Failed(e)) == next
                },
            }
        }),
{
}

/// A stage that is refused fails once its steps are done, with the reason, and is undone;
/// one that is not gives way to the next, and a script that has no more is finished.
pub proof fn law_stage_ends(run: Run)
    requires
        0 <= run.stage < run.stages.len(),
        run.at == run.stages[run.stage].steps.len(),
        run.failure is None,
    ensures
        run.stages[run.stage].refusal matches Some(e) ==> {
            &&& settled(run).failure == Some(e)
            &&& settled(run).stage == run.stage
            &&& settled(run).at == 0
        },
        run.stages[run.stage].refusal is None ==> settled(run) == settled(
            Run { stage: run.stage + 1, at: 0, found: false, ..run },
        ),
        run.stages[run.stage].refusal is None && run.stage + 1 == run.stages.len() ==> todo(
            settled(run),
        ) is Finished && settled(run).failure is None,
{
    reveal_with_fuel(settled, 2);
}

/// Operations say what they do, and to what.
pub proof fn law_deeds(
    id: KeyId,
    ring: KeyId,
    number: u32,
    a: String,
    b: String,
    bytes: Vec<u8>,
    keep: Option<String>,
)
    ensures
        (Op::SetTimeout { id, secs: number })@ == (Deed::SetTimeout { id, secs: number }),
        (Op::SetPerm { id, perm: number })@ == (Deed::SetPerm { id, perm: number }),
        (Op::Link { id, ring })@ == (Deed::Link { id, ring }),
        (Op::Unlink { id, ring })@ == (Deed::Unlink { id, ring }),
        (Op::Revoke { id })@ == (Deed::Revoke { id }),
        (Op::DropKeys { ring, prefix: a, keep })@ matches Deed::DropKeys {
            ring: r,
            prefix,
            keep: k,
        } && r == ring && prefix == a@ && match keep {
            Some(t) => k == Some(t@),
            None => k is None,
        },
        (Op::MakeDir { path: a, mode: number })@ == (Deed::MakeDir { path: a@, mode: number }),
        (Op::RemoveTree { path: a })@ == (Deed::RemoveTree { path: a@ }),
        (Op::RemoveDir { path: a })@ == (Deed::RemoveDir { path: a@ }),
        (Op::RemoveFile { path: a })@ == (Deed::RemoveFile { path: a@ }),
        (Op::WriteNew { path: a, mode: number, bytes })@ == (Deed::WriteNew {
            path: a@,
            mode: number,
            bytes: bytes@,
        }),
        (Op::Rename { from: a, to: b })@ == (Deed::Rename { from: a@, to: b@ }),
{
}

/// Scripts are taken as they are: each step with its path, its operation and what its
/// failure means, each stage with its steps, its refusal and what undoes it.
pub proof fn law_models(stages: Seq<Stage>, i: int, k: int)
    requires
        0 <= i < stages.len(),
    ensures
        stage_models(stages).len() == stages.len(),
        stage_models(stages)[i].steps.len() == stages[i].steps@.len(),
        stage_models(stages)[i].undo.len() == stages[i].undo@.len(),
        stage_models(stages)[i].refusal == match stages[i].refusal {
            Some(e) => Some(e@),
            None => None,
        },
        0 <= k < stages[i].undo@.len() ==> stage_models(stages)[i].undo[k] == stages[i].undo@[k]@,
        0 <= k < stages[i].steps@.len() ==> {
            let step = stages[i].steps@[k];
            let model = stage_models(stages)[i].steps[k];
            &&& model.deed == step.op@
            &&& model.guard == match step.guard {
                Some(p) => Some(p@),
                None => None,
            }
            &&& match step.blame {
                Blame::Ignored => model.fault is Ignored,
                Blame::Keyring(what) => model.fault == Fault::Keyring(what@),
                Blame::Files(what) => model.fault == Fault::Files(what@),
            }
        },
{
}

/// An action is what is to be done exactly if it asks for the same path, makes the same
/// change, or ends where there is nothing more to do.
pub proof fn law_action(path: &str, op: &Op, what: Todo)
    ensures
        is_todo(Action::Probe(path), what) <==> what == Todo::Probe(path@),
        is_todo(Action::Perform(op), what) <==> what == Todo::Perform(op@),
        is_todo(Action::Finished, what) <==> what is Finished,
{
}

} // verus!
