//! Running a service after the services it requires, one step at a time.
//!
//! Each required service is read from the service directory and run first, in order,
//! with its own requirements; then the service's program is executed. A requirement
//! that cannot be read stops the service that requires it with the reading error; a
//! requirement that does not run stops it as not found. Reading files and executing
//! programs is left to the caller, who performs each action and hands back its outcome.

use vstd::prelude::*;
use crate::service::{Service, ServiceModel, ServiceManager};
use crate::text::{clone_strings, strings_view};

verus! {

/// Why a service did not run.
pub enum RunError<E> {
    /// A required service file could not be read.
    Io(E),
    /// A required service did not run.
    NotFound,
}

/// What the caller is to do next.
pub enum RunAction<E> {
    /// Read the required service of this name from the service directory and hand it
    /// over.
    Load(String),
    /// Every requirement of the service read from this file ran: execute its program and
    /// hand over the outcome.
    Exec(String),
    /// The run is over, with the outcome of the first service.
    Finished(Result<isize, RunError<E>>),
}

/// What the caller is to do next, as text.
pub enum RunActionModel<E> {
    Load(Seq<char>),
    Exec(Seq<char>),
    Finished(Result<isize, RunError<E>>),
}

impl<E> View for RunAction<E> {
    type V = RunActionModel<E>;

    open spec fn view(&self) -> RunActionModel<E> {
        match self {
            RunAction::Load(s) => RunActionModel::Load(s@),
            RunAction::Exec(s) => RunActionModel::Exec(s@),
            RunAction::Finished(r) => RunActionModel::Finished(*r),
        }
    }
}

/// The command that executes a service's program once its requirements ran:
/// `/bin/sh -c aasdas`.
pub fn exec_command() -> (r: Vec<&'static str>)
    ensures
        r@.len() == 3,
        r@[0]@ == "/bin/sh"@,
        r@[1]@ == "-c"@,
        r@[2]@ == "aasdas"@,
{
    let mut r: Vec<&'static str> = Vec::new();
    r.push("/bin/sh");
    r.push("-c");
    r.push("aasdas");
    r
}

/// What a run waits for.
#[derive(Clone, Copy, PartialEq, Eq, Structural)]
pub enum RunWaiting {
    /// The required service asked for.
    Load,
    /// The outcome of executing a program.
    Exec,
    /// Nothing: the run is over.
    Done,
}

/// A service being run: its requirements, how many of them ran, and its file's name.
pub struct RunFrame {
    requires: Vec<String>,
    next: usize,
    fname: String,
}

/// A service being run, as text.
pub struct RunFrameModel {
    pub requires: Seq<Seq<char>>,
    pub next: int,
    pub fname: Seq<char>,
}

impl View for RunFrame {
    type V = RunFrameModel;

    closed spec fn view(&self) -> RunFrameModel {
        RunFrameModel {
            requires: strings_view(self.requires@),
            next: self.next as int,
            fname: self.fname@,
        }
    }
}

pub open spec fn run_frames_view(v: Seq<RunFrame>) -> Seq<RunFrameModel> {
    v.map_values(|f: RunFrame| f@)
}

/// A frame waiting for one of its requirements.
pub open spec fn run_pending(f: RunFrameModel) -> bool {
    0 <= f.next < f.requires.len()
}

/// The run, as text: the services being run, innermost last, and what it waits for.
pub struct RunModel {
    pub frames: Seq<RunFrameModel>,
    pub waiting: RunWaiting,
}

/// A service about to be run.
pub open spec fn run_frame_of(s: ServiceModel) -> RunFrameModel {
    RunFrameModel { requires: s.requires, next: 0, fname: s.fname }
}

/// Goes on with the innermost service: asks for its next requirement, or executes it.
pub open spec fn run_advance<E>(frames: Seq<RunFrameModel>) -> (RunModel, RunActionModel<E>) {
    let top = frames.last();
    if top.next < top.requires.len() {
        (
            RunModel { frames, waiting: RunWaiting::Load },
            RunActionModel::Load(top.requires[top.next]),
        )
    } else {
        (RunModel { frames, waiting: RunWaiting::Exec }, RunActionModel::Exec(top.fname))
    }
}

/// Hands the outcome of a service to the service that required it: a failure stops
/// that one as not found, which is handed on in turn; a success lets it go on. With no
/// service left, the run is over.
pub open spec fn run_deliver<E>(frames: Seq<RunFrameModel>, r: Result<isize, RunError<E>>) -> (
    RunModel,
    RunActionModel<E>,
)
    decreases frames.len(),
{
    if frames.len() == 0 {
        (RunModel { frames, waiting: RunWaiting::Done }, RunActionModel::Finished(r))
    } else if r is Err {
        run_deliver(frames.drop_last(), Err(RunError::NotFound))
    } else {
        let top = frames.last();
        run_advance(frames.update(frames.len() - 1, RunFrameModel { next: top.next + 1, ..top }))
    }
}

/// What a run does with the requirement it asked for: one that cannot be read stops
/// the service that requires it with the reading error; one that can is run.
pub open spec fn on_run_loaded<E>(w: RunModel, found: Result<ServiceModel, E>) -> (
    RunModel,
    RunActionModel<E>,
) {
    match found {
        Ok(s) => run_advance(w.frames.push(run_frame_of(s))),
        Err(e) => run_deliver(w.frames.drop_last(), Err(RunError::Io(e))),
    }
}

/// What a run does with the outcome of executing a program: it is the outcome of the
/// service, a failure being a reading error.
pub open spec fn on_executed<E>(w: RunModel, r: Result<isize, E>) -> (RunModel, RunActionModel<E>) {
    run_deliver(
        w.frames.drop_last(),
        match r {
            Ok(n) => Ok(n),
            Err(e) => Err(RunError::Io(e)),
        },
    )
}

/// The shape of the runs that the steps reach.
pub open spec fn run_ok(frames: Seq<RunFrameModel>, waiting: RunWaiting) -> bool {
    &&& (waiting == RunWaiting::Done ==> frames.len() == 0)
    &&& (waiting != RunWaiting::Done ==> frames.len() > 0)
    &&& forall|i: int|
        0 <= i < frames.len() && (waiting == RunWaiting::Load || i < frames.len() - 1)
            ==> #[trigger] run_pending(frames[i])
}

/// A run of a service and its requirements.
pub struct Runner {
    frames: Vec<RunFrame>,
    waiting: RunWaiting,
}

impl View for Runner {
    type V = RunModel;

    closed spec fn view(&self) -> RunModel {
        RunModel { frames: run_frames_view(self.frames@), waiting: self.waiting }
    }
}

impl ServiceManager {
    /// Starts running `service`: asks for its first requirement, or, where it has none,
    /// for its program to be executed.
    pub fn start_run<E>(&self, service: &Service) -> (r: (Runner, RunAction<E>))
        ensures
            (r.0@, r.1@) == run_advance::<E>(seq![run_frame_of(service@)]),
    {
        let f = RunFrame { requires: clone_strings(&service.requires), next: 0, fname: service.fname.clone() };
        let mut frames: Vec<RunFrame> = Vec::new();
        frames.push(f);
        assert(run_frames_view(frames@) =~= seq![run_frame_of(service@)]);
        run_advance_frames(frames)
    }
}

impl Runner {
    #[verifier::type_invariant]
    closed spec fn inv(self) -> bool {
        run_ok(run_frames_view(self.frames@), self.waiting)
    }

    /// What the run waits for.
    pub fn waiting(&self) -> (r: RunWaiting)
        ensures
            r == self@.waiting,
    {
        self.waiting
    }

    /// Goes on with the requirement asked for: the service read, or why it could not be.
    pub fn loaded<E>(self, found: Result<Service, E>) -> (r: (Self, RunAction<E>))
        requires
            self@.waiting == RunWaiting::Load,
        ensures
            (r.0@, r.1@) == on_run_loaded(
                self@,
                match found {
                    Ok(s) => Ok(s@),
                    Err(e) => Err(e),
                },
            ),
    {
        proof {
            use_type_invariant(&self);
        }
        let Runner { frames, waiting: _ } = self;
        let mut frames = frames;
        let ghost before = run_frames_view(frames@);
        match found {
            Ok(s) => {
                let f = RunFrame { requires: clone_strings(&s.requires), next: 0, fname: s.fname };
                frames.push(f);
                assert(run_frames_view(frames@) =~= before.push(run_frame_of(s@)));
                run_advance_frames(frames)
            },
            Err(e) => {
                let _ = frames.pop();
                assert(run_frames_view(frames@) =~= before.drop_last());
                run_deliver_frames(frames, Err(RunError::Io(e)))
            },
        }
    }

    /// Goes on with the outcome of executing the program asked for.
    pub fn executed<E>(self, outcome: Result<isize, E>) -> (r: (Self, RunAction<E>))
        requires
            self@.waiting == RunWaiting::Exec,
        ensures
            (r.0@, r.1@) == on_executed(self@, outcome),
    {
        proof {
            use_type_invariant(&self);
        }
        let Runner { frames, waiting: _ } = self;
        let mut frames = frames;
        let ghost before = run_frames_view(frames@);
        let _ = frames.pop();
        assert(run_frames_view(frames@) =~= before.drop_last());
        let r = match outcome {
            Ok(n) => Ok(n),
            Err(e) => Err(RunError::Io(e)),
        };
        run_deliver_frames(frames, r)
    }
}

/// Goes on with the innermost frame.
fn run_advance_frames<E>(frames: Vec<RunFrame>) -> (r: (Runner, RunAction<E>))
    requires
        frames@.len() > 0,
        forall|i: int|
            0 <= i < frames@.len() - 1 ==> #[trigger] run_pending(run_frames_view(frames@)[i]),
        0 <= run_frames_view(frames@).last().next <= run_frames_view(frames@).last().requires.len(),
    ensures
        (r.0@, r.1@) == run_advance::<E>(run_frames_view(frames@)),
{
    let ghost fv = run_frames_view(frames@);
    let n = frames.len();
    let top = &frames[n - 1];
    assert(top@ == fv.last());
    if top.next < top.requires.len() {
        let name = top.requires[top.next].clone();
        (Runner { frames, waiting: RunWaiting::Load }, RunAction::Load(name))
    } else {
        let fname = top.fname.clone();
        (Runner { frames, waiting: RunWaiting::Exec }, RunAction::Exec(fname))
    }
}

/// Hands an outcome to the frames that asked for it.
fn run_deliver_frames<E>(frames0: Vec<RunFrame>, r0: Result<isize, RunError<E>>) -> (r: (
    Runner,
    RunAction<E>,
))
    requires
        forall|i: int| 0 <= i < frames0@.len() ==> #[trigger] run_pending(run_frames_view(frames0@)[i]),
    ensures
        (r.0@, r.1@) == run_deliver(run_frames_view(frames0@), r0),
{
    let ghost goal = run_deliver(run_frames_view(frames0@), r0);
    let mut frames = frames0;
    let mut outcome = r0;
    loop
        invariant
            goal == run_deliver(run_frames_view(frames0@), r0),
            forall|i: int| 0 <= i < frames@.len() ==> #[trigger] run_pending(run_frames_view(frames@)[i]),
            run_deliver(run_frames_view(frames@), outcome) == goal,
        decreases frames@.len(),
    {
        let ghost fv = run_frames_view(frames@);
        if frames.len() == 0 {
            return (Runner { frames, waiting: RunWaiting::Done }, RunAction::Finished(outcome));
        }
        if outcome.is_err() {
            let _ = frames.pop();
            assert(run_frames_view(frames@) =~= fv.drop_last());
            outcome = Err(RunError::NotFound);
        } else {
            let mut top = frames.pop().unwrap();
            assert(run_frames_view(frames@) =~= fv.drop_last());
            assert(top@ == fv.last());
            assert(run_pending(fv[fv.len() - 1]));
            let n = top.requires.len();
            assert(top.next < n);
            top.next = top.next + 1;
            frames.push(top);
            assert(run_frames_view(frames@) =~= fv.update(
                fv.len() - 1,
                RunFrameModel { next: fv.last().next + 1, ..fv.last() },
            ));
            return run_advance_frames(frames);
        }
    }
}


/// How required services are read: by name, the service or why it could not be read.
pub type Loads<E> = spec_fn(Seq<char>) -> Result<ServiceModel, E>;

/// How programs run: for a service's file name, the outcome of executing its program.
pub type Execs<E> = spec_fn(Seq<char>) -> Result<isize, E>;

/// What the caller answers to an action: a required service as `load` reads it, a
/// program's outcome as `exec` gives it.
pub open spec fn run_respond<E>(load: Loads<E>, exec: Execs<E>, w: RunModel, a: RunActionModel<E>) -> (
    RunModel,
    RunActionModel<E>,
) {
    match a {
        RunActionModel::Load(name) => on_run_loaded(w, load(name)),
        RunActionModel::Exec(fname) => on_executed(w, exec(fname)),
        RunActionModel::Finished(_) => (w, a),
    }
}

/// `n` steps of a run whose actions are answered by `load` and `exec`.
pub open spec fn run_steps<E>(
    load: Loads<E>,
    exec: Execs<E>,
    w: RunModel,
    a: RunActionModel<E>,
    n: nat,
) -> (RunModel, RunActionModel<E>)
    decreases n,
{
    if n == 0 {
        (w, a)
    } else {
        let (w2, a2) = run_respond(load, exec, w, a);
        run_steps(load, exec, w2, a2, (n - 1) as nat)
    }
}

/// The file names of the services whose programs `n` answered steps execute, in order.
pub open spec fn run_executed<E>(
    load: Loads<E>,
    exec: Execs<E>,
    w: RunModel,
    a: RunActionModel<E>,
    n: nat,
) -> Seq<Seq<char>>
    decreases n,
{
    if n == 0 {
        Seq::empty()
    } else {
        let (w2, a2) = run_respond(load, exec, w, a);
        let here = match a {
            RunActionModel::Exec(fname) => seq![fname],
            _ => Seq::empty(),
        };
        here + run_executed(load, exec, w2, a2, (n - 1) as nat)
    }
}

/// `n` answered steps from advancing `frames`.
pub open spec fn run_after_advance<E>(
    load: Loads<E>,
    exec: Execs<E>,
    frames: Seq<RunFrameModel>,
    n: nat,
) -> (RunModel, RunActionModel<E>) {
    run_steps(load, exec, run_advance::<E>(frames).0, run_advance::<E>(frames).1, n)
}

/// The programs that `n` answered steps from advancing `frames` execute.
pub open spec fn run_executed_after_advance<E>(
    load: Loads<E>,
    exec: Execs<E>,
    frames: Seq<RunFrameModel>,
    n: nat,
) -> Seq<Seq<char>> {
    run_executed(load, exec, run_advance::<E>(frames).0, run_advance::<E>(frames).1, n)
}

/// Running a service recursively, the way the service manager runs it: each
/// requirement in turn is read and run, a reading error stops the service with that
/// error, a requirement that does not run stops it as not found, and then its program is
/// executed. The result is the service's outcome, with the file names of the services
/// whose programs were executed, in order. `fuel` bounds the depth of requirements;
/// `None` where it runs out.
pub open spec fn run_outcome<E>(load: Loads<E>, exec: Execs<E>, s: ServiceModel, fuel: nat) -> Option<
    (Result<isize, RunError<E>>, Seq<Seq<char>>),
>
    decreases fuel, 1int, 0int,
{
    run_outcome_from(load, exec, s.requires, s.fname, 0, fuel)
}

/// Running a service recursively from its `i`-th requirement on.
pub open spec fn run_outcome_from<E>(
    load: Loads<E>,
    exec: Execs<E>,
    reqs: Seq<Seq<char>>,
    fname: Seq<char>,
    i: int,
    fuel: nat,
) -> Option<(Result<isize, RunError<E>>, Seq<Seq<char>>)>
    decreases fuel, 0int, reqs.len() - i,
{
    if i < 0 || i >= reqs.len() {
        Some(
            (
                match exec(fname) {
                    Ok(n) => Ok(n),
                    Err(e) => Err(RunError::Io(e)),
                },
                seq![fname],
            ),
        )
    } else {
        match load(reqs[i]) {
            Err(e) => Some((Err(RunError::Io(e)), Seq::empty())),
            Ok(dep) => if fuel == 0 {
                None
            } else {
                match run_outcome(load, exec, dep, (fuel - 1) as nat) {
                    None => None,
                    Some((Err(_), names)) => Some((Err(RunError::NotFound), names)),
                    Some((Ok(_), names)) => match run_outcome_from(
                        load,
                        exec,
                        reqs,
                        fname,
                        i + 1,
                        fuel,
                    ) {
                        None => None,
                        Some((r, rest)) => Some((r, names + rest)),
                    },
                }
            },
        }
    }
}

proof fn lemma_run_steps_add<E>(
    load: Loads<E>,
    exec: Execs<E>,
    w: RunModel,
    a: RunActionModel<E>,
    n1: nat,
    n2: nat,
)
    ensures
        run_steps(load, exec, w, a, n1 + n2) == run_steps(
            load,
            exec,
            run_steps(load, exec, w, a, n1).0,
            run_steps(load, exec, w, a, n1).1,
            n2,
        ),
        run_executed(load, exec, w, a, n1 + n2) == run_executed(load, exec, w, a, n1)
            + run_executed(
            load,
            exec,
            run_steps(load, exec, w, a, n1).0,
            run_steps(load, exec, w, a, n1).1,
            n2,
        ),
    decreases n1,
{
    if n1 == 0 {
        assert(run_executed(load, exec, w, a, 0) + run_executed(load, exec, w, a, n2)
            =~= run_executed(load, exec, w, a, n2));
    } else {
        let (w2, a2) = run_respond(load, exec, w, a);
        lemma_run_steps_add(load, exec, w2, a2, (n1 - 1) as nat, n2);
        assert((n1 + n2 - 1) as nat == ((n1 - 1) as nat + n2) as nat);
        let here = match a {
            RunActionModel::Exec(fname) => seq![fname],
            _ => Seq::empty(),
        };
        let tail = run_executed(
            load,
            exec,
            run_steps(load, exec, w, a, n1).0,
            run_steps(load, exec, w, a, n1).1,
            n2,
        );
        assert(here + (run_executed(load, exec, w2, a2, (n1 - 1) as nat) + tail) =~= (here
            + run_executed(load, exec, w2, a2, (n1 - 1) as nat)) + tail);
    }
}

/// A frame run on top of pending frames executes the programs that the recursive run
/// executes, and hands its outcome to them.
proof fn lemma_run_frame<E>(
    load: Loads<E>,
    exec: Execs<E>,
    p: Seq<RunFrameModel>,
    f: RunFrameModel,
    fuel: nat,
    r: Result<isize, RunError<E>>,
    names: Seq<Seq<char>>,
)
    requires
        forall|k: int| 0 <= k < p.len() ==> #[trigger] run_pending(p[k]),
        0 <= f.next <= f.requires.len(),
        run_outcome_from(load, exec, f.requires, f.fname, f.next, fuel) == Some((r, names)),
    ensures
        exists|n: nat|
            #[trigger] run_after_advance(load, exec, p.push(f), n) == run_deliver(p, r)
                && run_executed_after_advance(load, exec, p.push(f), n) == names,
    decreases fuel, f.requires.len() - f.next,
{
    let frames = p.push(f);
    let (w0, a0) = run_advance::<E>(frames);
    assert(frames.drop_last() =~= p);
    reveal_with_fuel(run_steps, 2);
    reveal_with_fuel(run_executed, 2);
    if f.next >= f.requires.len() {
        assert(run_after_advance(load, exec, frames, 1) == run_deliver(p, r));
        assert(run_executed_after_advance(load, exec, frames, 1) =~= names);
    } else {
        let name = f.requires[f.next];
        match load(name) {
            Err(e) => {
                assert(run_after_advance(load, exec, frames, 1) == run_deliver(p, r));
                assert(run_executed_after_advance(load, exec, frames, 1) =~= names);
            },
            Ok(dep) => {
                let (c, cnames) = run_outcome(load, exec, dep, (fuel - 1) as nat).unwrap();
                let df = run_frame_of(dep);
                assert(forall|k: int| 0 <= k < frames.len() ==> #[trigger] run_pending(frames[k])) by {
                    assert forall|k: int| 0 <= k < frames.len() implies #[trigger] run_pending(
                        frames[k],
                    ) by {
                        if k < p.len() {
                            assert(frames[k] == p[k]);
                        }
                    }
                }
                lemma_run_frame(load, exec, frames, df, (fuel - 1) as nat, c, cnames);
                let n1 = choose|n: nat|
                    #[trigger] run_after_advance(load, exec, frames.push(df), n) == run_deliver(frames, c)
                        && run_executed_after_advance(load, exec, frames.push(df), n) == cnames;
                let (w1, a1) = run_respond(load, exec, w0, a0);
                assert((w1, a1) == run_advance::<E>(frames.push(df)));
                lemma_run_steps_add(load, exec, w0, a0, 1, n1);
                assert(run_executed_after_advance(load, exec, frames, 1 + n1) =~= cnames);
                if c is Err {
                    assert(run_deliver(frames, c) == run_deliver(
                        p,
                        Err::<isize, RunError<E>>(RunError::NotFound),
                    ));
                    assert(run_after_advance(load, exec, frames, 1 + n1) == run_deliver(p, r));
                } else {
                    let g = RunFrameModel { next: f.next + 1, ..f };
                    assert(frames.update(frames.len() - 1, g) =~= p.push(g));
                    let rest = run_outcome_from(load, exec, f.requires, f.fname, f.next + 1, fuel).unwrap().1;
                    lemma_run_frame(load, exec, p, g, fuel, r, rest);
                    let n2 = choose|n: nat|
                        #[trigger] run_after_advance(load, exec, p.push(g), n) == run_deliver(p, r)
                            && run_executed_after_advance(load, exec, p.push(g), n) == rest;
                    lemma_run_steps_add(load, exec, w0, a0, 1 + n1, n2);
                    assert(run_after_advance(load, exec, frames, 1 + n1 + n2) == run_deliver(p, r));
                    assert(run_executed_after_advance(load, exec, frames, 1 + n1 + n2) =~= names);
                }
            },
        }
    }
}

/// A run driven with the answers of a fixed world does what running recursively does:
/// where running `s` recursively gives outcome `r` and executes the programs of the
/// services `names`, in order (its requirements nested no deeper than `fuel`), the run
/// that `start_run` begins executes exactly those programs, in that order, and reaches
/// `Finished(r)`, with no service left, after finitely many answered steps. In particular
/// a program runs only after the programs of the services it requires.
pub proof fn law_run_finishes_as_recursion<E>(
    load: Loads<E>,
    exec: Execs<E>,
    s: ServiceModel,
    fuel: nat,
    r: Result<isize, RunError<E>>,
    names: Seq<Seq<char>>,
)
    requires
        run_outcome(load, exec, s, fuel) == Some((r, names)),
    ensures
        exists|n: nat|
            #[trigger] run_after_advance(load, exec, seq![run_frame_of(s)], n) == (
                RunModel { frames: Seq::empty(), waiting: RunWaiting::Done },
                RunActionModel::Finished(r),
            ) && run_executed_after_advance(load, exec, seq![run_frame_of(s)], n) == names,
{
    let p = Seq::<RunFrameModel>::empty();
    assert(p.push(run_frame_of(s)) =~= seq![run_frame_of(s)]);
    lemma_run_frame(load, exec, p, run_frame_of(s), fuel, r, names);
}

}
