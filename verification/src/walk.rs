//! Starting a service after its dependencies, one step at a time.
//!
//! A service starts after each service it requires and each service it wants, in that
//! order; each of those is started the same way, from the service files in the
//! directory of the service that names them. A required service that is missing, or
//! that does not start, stops the service that requires it; a wanted one does not.
//! Reading files is left to the caller: the walk asks for a file with a `Load` action and
//! goes on when it is handed what was found.

use vstd::prelude::*;
use crate::config::{Parsed, ValueModel};
use crate::text::{clone_strings, strings_view};

verus! {

/// What the caller is to do next.
pub enum WalkAction {
    /// Read the service file of this name, in the directory of the service being
    /// started, and hand over what was found.
    Load(String),
    /// All dependencies of the service being started are done: it starts, under the
    /// `metadata.name` of its file where there is one. Resume afterwards.
    Start(Option<String>),
    /// The walk is over: whether the first service started.
    Finished(bool),
}

/// What the caller is to do next, as text.
pub enum WalkActionModel {
    Load(Seq<char>),
    Start(Option<Seq<char>>),
    Finished(bool),
}

/// What the walk waits for.
#[derive(Clone, Copy, PartialEq, Eq, Structural)]
pub enum Waiting {
    /// The service file asked for.
    Load,
    /// The caller to resume after a service started.
    Resume,
    /// Nothing: the walk is over.
    Done,
}

pub open spec fn opt_view(o: Option<String>) -> Option<Seq<char>> {
    match o {
        Some(s) => Some(s@),
        None => None,
    }
}

impl View for WalkAction {
    type V = WalkActionModel;

    open spec fn view(&self) -> WalkActionModel {
        match self {
            WalkAction::Load(f) => WalkActionModel::Load(f@),
            WalkAction::Start(n) => WalkActionModel::Start(opt_view(*n)),
            WalkAction::Finished(b) => WalkActionModel::Finished(*b),
        }
    }
}

/// A service being started: the directory of its file, its required and wanted
/// services, which list is being gone through and how far, and its name.
pub struct WalkFrame<D> {
    dir: D,
    requires: Vec<String>,
    wants: Vec<String>,
    in_wants: bool,
    next: usize,
    name: Option<String>,
}

/// A service being started, as text.
pub struct FrameModel<D> {
    pub dir: D,
    pub requires: Seq<Seq<char>>,
    pub wants: Seq<Seq<char>>,
    pub in_wants: bool,
    pub next: int,
    pub name: Option<Seq<char>>,
}

impl<D> View for WalkFrame<D> {
    type V = FrameModel<D>;

    closed spec fn view(&self) -> FrameModel<D> {
        FrameModel {
            dir: self.dir,
            requires: strings_view(self.requires@),
            wants: strings_view(self.wants@),
            in_wants: self.in_wants,
            next: self.next as int,
            name: opt_view(self.name),
        }
    }
}

pub open spec fn frames_view<D>(v: Seq<WalkFrame<D>>) -> Seq<FrameModel<D>> {
    v.map_values(|f: WalkFrame<D>| f@)
}

/// The list a frame is going through.
pub open spec fn deps<D>(f: FrameModel<D>) -> Seq<Seq<char>> {
    if f.in_wants {
        f.wants
    } else {
        f.requires
    }
}

/// A frame waiting for one of its dependencies.
pub open spec fn pending<D>(f: FrameModel<D>) -> bool {
    0 <= f.next < deps(f).len()
}

/// Once the required services are done, the wanted ones are gone through.
pub open spec fn settle<D>(f: FrameModel<D>) -> FrameModel<D> {
    if !f.in_wants && f.next >= f.requires.len() {
        FrameModel { in_wants: true, next: 0, ..f }
    } else {
        f
    }
}

/// The walk, as text: the services being started, innermost last, and what it waits for.
pub struct WalkModel<D> {
    pub frames: Seq<FrameModel<D>>,
    pub waiting: Waiting,
}

/// Goes on with the innermost service: asks for its next dependency, or starts it.
pub open spec fn advance<D>(frames: Seq<FrameModel<D>>) -> (WalkModel<D>, WalkActionModel) {
    let top = settle(frames.last());
    let fr = frames.update(frames.len() - 1, top);
    if top.next < deps(top).len() {
        (
            WalkModel { frames: fr, waiting: Waiting::Load },
            WalkActionModel::Load(deps(top)[top.next] + ".service"@),
        )
    } else {
        (WalkModel { frames: fr, waiting: Waiting::Resume }, WalkActionModel::Start(top.name))
    }
}

/// Hands whether a service started to the service that asked for it: a required
/// service that did not start stops the one that requires it, which is handed on in
/// turn; otherwise that one goes on with its next dependency. With no service left, the
/// walk is over.
pub open spec fn deliver<D>(frames: Seq<FrameModel<D>>, started: bool) -> (
    WalkModel<D>,
    WalkActionModel,
)
    decreases frames.len(),
{
    if frames.len() == 0 {
        (WalkModel { frames, waiting: Waiting::Done }, WalkActionModel::Finished(started))
    } else {
        let top = frames.last();
        if !started && !top.in_wants {
            deliver(frames.drop_last(), false)
        } else {
            advance(frames.update(frames.len() - 1, FrameModel { next: top.next + 1, ..top }))
        }
    }
}

/// The array under `k`, or no elements.
pub open spec fn array_at(m: Map<Seq<char>, ValueModel>, k: Seq<char>) -> Seq<Seq<char>> {
    if m.contains_key(k) {
        match m[k] {
            ValueModel::Arr(a) => a,
            ValueModel::Str(_) => Seq::empty(),
        }
    } else {
        Seq::empty()
    }
}

/// The string under `k`, if it holds one.
pub open spec fn string_at(m: Map<Seq<char>, ValueModel>, k: Seq<char>) -> Option<Seq<char>> {
    if m.contains_key(k) {
        match m[k] {
            ValueModel::Str(s) => Some(s),
            ValueModel::Arr(_) => None,
        }
    } else {
        None
    }
}

/// A service read from `dir` with configuration `m`, before any dependency.
pub open spec fn frame_of<D>(dir: D, m: Map<Seq<char>, ValueModel>) -> FrameModel<D> {
    FrameModel {
        dir,
        requires: array_at(m, "service.requires"@),
        wants: array_at(m, "service.wants"@),
        in_wants: false,
        next: 0,
        name: string_at(m, "metadata.name"@),
    }
}

/// What a walk does with the service file it asked for: a missing file is a service
/// that did not start; a found one is started after its dependencies.
pub open spec fn on_loaded<D>(w: WalkModel<D>, found: Option<(D, Map<Seq<char>, ValueModel>)>) -> (
    WalkModel<D>,
    WalkActionModel,
) {
    match found {
        None => deliver(w.frames, false),
        Some((dir, m)) => advance(w.frames.push(frame_of(dir, m))),
    }
}

/// What a walk does once the service it started is up: it is handed back as started.
pub open spec fn on_resumed<D>(w: WalkModel<D>) -> (WalkModel<D>, WalkActionModel) {
    deliver(w.frames.drop_last(), true)
}

/// The shape of the walks that the steps reach.
pub open spec fn walk_ok<D>(frames: Seq<FrameModel<D>>, waiting: Waiting) -> bool {
    &&& (waiting == Waiting::Done ==> frames.len() == 0)
    &&& (waiting == Waiting::Resume ==> frames.len() > 0)
    &&& forall|i: int|
        0 <= i < frames.len() && (waiting == Waiting::Load || i < frames.len() - 1)
            ==> #[trigger] pending(frames[i])
}

/// A walk that starts a service and its dependencies.
pub struct Walker<D> {
    frames: Vec<WalkFrame<D>>,
    waiting: Waiting,
}

impl<D> View for Walker<D> {
    type V = WalkModel<D>;

    closed spec fn view(&self) -> WalkModel<D> {
        WalkModel { frames: frames_view(self.frames@), waiting: self.waiting }
    }
}

impl<D> Walker<D> {
    #[verifier::type_invariant]
    closed spec fn inv(self) -> bool {
        walk_ok(frames_view(self.frames@), self.waiting)
    }

    /// A walk waiting for the file of the service to start.
    pub fn new() -> (w: Self)
        ensures
            w@.frames.len() == 0,
            w@.waiting == Waiting::Load,
    {
        Walker { frames: Vec::new(), waiting: Waiting::Load }
    }

    /// What the walk waits for.
    pub fn waiting(&self) -> (r: Waiting)
        ensures
            r == self@.waiting,
    {
        self.waiting
    }

    /// The directory of the service being started, where the next file is to be read.
    pub fn top_dir(&self) -> (r: Option<&D>)
        ensures
            self@.frames.len() == 0 ==> r is None,
            self@.frames.len() > 0 ==> r == Some(&self@.frames.last().dir),
    {
        let n = self.frames.len();
        if n == 0 {
            None
        } else {
            Some(&self.frames[n - 1].dir)
        }
    }

    /// Goes on with the service file asked for: `None` where it does not exist, or the
    /// directory it is in with its configuration.
    pub fn loaded(self, found: Option<(D, Parsed)>) -> (r: (Self, WalkAction))
        requires
            self@.waiting == Waiting::Load,
        ensures
            (r.0@, r.1@) == on_loaded(
                self@,
                match found {
                    Some((d, p)) => Some((d, p@)),
                    None => None,
                },
            ),
    {
        proof {
            use_type_invariant(&self);
        }
        let Walker { frames, waiting: _ } = self;
        match found {
            None => deliver_frames(frames, false),
            Some((dir, p)) => {
                let f = load_frame(dir, &p);
                let mut frames = frames;
                let ghost before = frames_view(frames@);
                frames.push(f);
                assert(frames_view(frames@) =~= before.push(f@));
                advance_frames(frames)
            },
        }
    }

    /// Goes on after the service asked to start is up.
    pub fn resume(self) -> (r: (Self, WalkAction))
        requires
            self@.waiting == Waiting::Resume,
        ensures
            (r.0@, r.1@) == on_resumed(self@),
    {
        proof {
            use_type_invariant(&self);
        }
        let Walker { frames, waiting: _ } = self;
        let mut frames = frames;
        let ghost before = frames_view(frames@);
        let _ = frames.pop();
        assert(frames_view(frames@) =~= before.drop_last());
        deliver_frames(frames, true)
    }
}

/// The frame of a service read from `dir`.
fn load_frame<D>(dir: D, p: &Parsed) -> (f: WalkFrame<D>)
    ensures
        f@ == frame_of(dir, p@),
{
    let req = match p.get_array("service.requires") {
        Some(a) => clone_strings(a),
        None => Vec::new(),
    };
    let wants = match p.get_array("service.wants") {
        Some(a) => clone_strings(a),
        None => Vec::new(),
    };
    let name = match p.get_string("metadata.name") {
        Some(s) => Some(s.clone()),
        None => None,
    };
    let f = WalkFrame { dir, requires: req, wants, in_wants: false, next: 0, name };
    assert(f@.requires =~= array_at(p@, "service.requires"@));
    assert(f@.wants =~= array_at(p@, "service.wants"@));
    f
}

/// Goes on with the innermost frame.
fn advance_frames<D>(frames: Vec<WalkFrame<D>>) -> (r: (Walker<D>, WalkAction))
    requires
        frames@.len() > 0,
        forall|i: int|
            0 <= i < frames@.len() - 1 ==> #[trigger] pending(frames_view(frames@)[i]),
        0 <= frames_view(frames@).last().next <= deps(frames_view(frames@).last()).len(),
    ensures
        (r.0@, r.1@) == advance(frames_view(frames@)),
{
    let ghost fv = frames_view(frames@);
    let mut frames = frames;
    let mut top = frames.pop().unwrap();
    assert(frames_view(frames@) =~= fv.drop_last());
    if !top.in_wants && top.next >= top.requires.len() {
        top.in_wants = true;
        top.next = 0;
    }
    let n = if top.in_wants {
        top.wants.len()
    } else {
        top.requires.len()
    };
    if top.next < n {
        let dep = if top.in_wants {
            &top.wants[top.next]
        } else {
            &top.requires[top.next]
        };
        let mut file = dep.clone();
        file.append(".service");
        frames.push(top);
        assert(frames_view(frames@) =~= fv.update(fv.len() - 1, settle(fv.last())));
        (Walker { frames, waiting: Waiting::Load }, WalkAction::Load(file))
    } else {
        let name = match &top.name {
            Some(s) => Some(s.clone()),
            None => None,
        };
        frames.push(top);
        assert(frames_view(frames@) =~= fv.update(fv.len() - 1, settle(fv.last())));
        (Walker { frames, waiting: Waiting::Resume }, WalkAction::Start(name))
    }
}

/// Hands whether a service started to the frames that asked for it.
fn deliver_frames<D>(frames0: Vec<WalkFrame<D>>, started0: bool) -> (r: (Walker<D>, WalkAction))
    requires
        forall|i: int| 0 <= i < frames0@.len() ==> #[trigger] pending(frames_view(frames0@)[i]),
    ensures
        (r.0@, r.1@) == deliver(frames_view(frames0@), started0),
{
    let ghost goal = deliver(frames_view(frames0@), started0);
    let mut frames = frames0;
    let mut started = started0;
    loop
        invariant
            goal == deliver(frames_view(frames0@), started0),
            forall|i: int| 0 <= i < frames@.len() ==> #[trigger] pending(frames_view(frames@)[i]),
            deliver(frames_view(frames@), started) == goal,
        decreases frames@.len(),
    {
        let ghost fv = frames_view(frames@);
        if frames.len() == 0 {
            assert(frames_view(frames@) =~= fv);
            return (Walker { frames, waiting: Waiting::Done }, WalkAction::Finished(started));
        }
        let mut top = frames.pop().unwrap();
        assert(frames_view(frames@) =~= fv.drop_last());
        assert(top@ == fv.last());
        if !started && !top.in_wants {
            started = false;
        } else {
            assert(pending(fv[fv.len() - 1]));
            let n = if top.in_wants {
                top.wants.len()
            } else {
                top.requires.len()
            };
            assert(top.next < n);
            top.next = top.next + 1;
            frames.push(top);
            assert(frames_view(frames@) =~= fv.update(
                fv.len() - 1,
                FrameModel { next: fv.last().next + 1, ..fv.last() },
            ));
            return advance_frames(frames);
        }
    }
}


/// The service files a walk is answered from: for a directory and a file name, the
/// directory the file is in with its configuration, or nothing where it is missing.
pub type Files<D> = spec_fn(D, Seq<char>) -> Option<(D, Map<Seq<char>, ValueModel>)>;

/// What the caller answers to an action: the service file `files` gives for the
/// directory of the service being started and the file name, or a resume after a start.
pub open spec fn walk_respond<D>(files: Files<D>, w: WalkModel<D>, a: WalkActionModel) -> (
    WalkModel<D>,
    WalkActionModel,
) {
    match a {
        WalkActionModel::Load(file) => on_loaded(w, files(w.frames.last().dir, file)),
        WalkActionModel::Start(_) => on_resumed(w),
        WalkActionModel::Finished(_) => (w, a),
    }
}

/// `n` steps of a walk whose actions are answered from `files`.
pub open spec fn walk_steps<D>(files: Files<D>, w: WalkModel<D>, a: WalkActionModel, n: nat) -> (
    WalkModel<D>,
    WalkActionModel,
)
    decreases n,
{
    if n == 0 {
        (w, a)
    } else {
        let (w2, a2) = walk_respond(files, w, a);
        walk_steps(files, w2, a2, (n - 1) as nat)
    }
}

/// The names of the services that `n` answered steps start, in order.
pub open spec fn walk_started<D>(files: Files<D>, w: WalkModel<D>, a: WalkActionModel, n: nat) -> Seq<
    Option<Seq<char>>,
>
    decreases n,
{
    if n == 0 {
        Seq::empty()
    } else {
        let (w2, a2) = walk_respond(files, w, a);
        let here = match a {
            WalkActionModel::Start(name) => seq![name],
            _ => Seq::empty(),
        };
        here + walk_started(files, w2, a2, (n - 1) as nat)
    }
}

/// `n` answered steps from advancing `frames`.
pub open spec fn walk_after_advance<D>(files: Files<D>, frames: Seq<FrameModel<D>>, n: nat) -> (
    WalkModel<D>,
    WalkActionModel,
) {
    walk_steps(files, advance(frames).0, advance(frames).1, n)
}

/// The services that `n` answered steps from advancing `frames` start.
pub open spec fn walk_started_after_advance<D>(
    files: Files<D>,
    frames: Seq<FrameModel<D>>,
    n: nat,
) -> Seq<Option<Seq<char>>> {
    walk_started(files, advance(frames).0, advance(frames).1, n)
}

/// How much of a frame's lists is left.
pub open spec fn walk_measure<D>(f: FrameModel<D>) -> int {
    if f.in_wants {
        f.wants.len() - f.next
    } else {
        f.requires.len() - f.next + f.wants.len() + 1
    }
}

/// Starting a service recursively: each required, then each wanted, service is read
/// from the directory of the service that names it and started the same way; a missing
/// or failing required one stops the service, a wanted one does not; the service itself
/// starts once all of them are done. The result is whether the service started, with the
/// names of the services started, in order. `fuel` bounds the depth of dependencies;
/// `None` where it runs out.
pub open spec fn walk_outcome<D>(files: Files<D>, f: FrameModel<D>, fuel: nat) -> Option<
    (bool, Seq<Option<Seq<char>>>),
>
    decreases fuel, walk_measure(f),
{
    let g = settle(f);
    if f.next < 0 || f.next > deps(f).len() || g.next >= deps(g).len() {
        Some((true, seq![g.name]))
    } else {
        let child = match files(g.dir, deps(g)[g.next] + ".service"@) {
            None => Some((false, Seq::empty())),
            Some((d, m)) => if fuel == 0 {
                None
            } else {
                walk_outcome(files, frame_of(d, m), (fuel - 1) as nat)
            },
        };
        match child {
            None => None,
            Some((c, names)) => if !c && !g.in_wants {
                Some((false, names))
            } else {
                match walk_outcome(files, FrameModel { next: g.next + 1, ..g }, fuel) {
                    None => None,
                    Some((b, rest)) => Some((b, names + rest)),
                }
            },
        }
    }
}

/// Starting recursively the service whose file was found (or not).
pub open spec fn walk_root_outcome<D>(
    files: Files<D>,
    root: Option<(D, Map<Seq<char>, ValueModel>)>,
    fuel: nat,
) -> Option<(bool, Seq<Option<Seq<char>>>)> {
    match root {
        None => Some((false, Seq::empty())),
        Some((d, m)) => walk_outcome(files, frame_of(d, m), fuel),
    }
}

proof fn lemma_walk_steps_add<D>(
    files: Files<D>,
    w: WalkModel<D>,
    a: WalkActionModel,
    n1: nat,
    n2: nat,
)
    ensures
        walk_steps(files, w, a, n1 + n2) == walk_steps(
            files,
            walk_steps(files, w, a, n1).0,
            walk_steps(files, w, a, n1).1,
            n2,
        ),
        walk_started(files, w, a, n1 + n2) == walk_started(files, w, a, n1) + walk_started(
            files,
            walk_steps(files, w, a, n1).0,
            walk_steps(files, w, a, n1).1,
            n2,
        ),
    decreases n1,
{
    if n1 == 0 {
        assert(walk_started(files, w, a, 0) + walk_started(files, w, a, n2) =~= walk_started(
            files,
            w,
            a,
            n2,
        ));
    } else {
        let (w2, a2) = walk_respond(files, w, a);
        lemma_walk_steps_add(files, w2, a2, (n1 - 1) as nat, n2);
        assert((n1 + n2 - 1) as nat == ((n1 - 1) as nat + n2) as nat);
        let here = match a {
            WalkActionModel::Start(name) => seq![name],
            _ => Seq::empty(),
        };
        assert(here + (walk_started(files, w2, a2, (n1 - 1) as nat) + walk_started(
            files,
            walk_steps(files, w, a, n1).0,
            walk_steps(files, w, a, n1).1,
            n2,
        )) =~= (here + walk_started(files, w2, a2, (n1 - 1) as nat)) + walk_started(
            files,
            walk_steps(files, w, a, n1).0,
            walk_steps(files, w, a, n1).1,
            n2,
        ));
    }
}

/// A frame walked on top of pending frames starts the services that the recursive walk
/// starts, and hands its result to them.
proof fn lemma_walk_frame<D>(
    files: Files<D>,
    p: Seq<FrameModel<D>>,
    f: FrameModel<D>,
    fuel: nat,
    b: bool,
    names: Seq<Option<Seq<char>>>,
)
    requires
        forall|k: int| 0 <= k < p.len() ==> #[trigger] pending(p[k]),
        0 <= f.next <= deps(f).len(),
        walk_outcome(files, f, fuel) == Some((b, names)),
    ensures
        exists|n: nat|
            #[trigger] walk_after_advance(files, p.push(f), n) == deliver(p, b)
                && walk_started_after_advance(files, p.push(f), n) == names,
    decreases fuel, walk_measure(f),
{
    reveal_with_fuel(walk_steps, 2);
    reveal_with_fuel(walk_started, 2);
    let frames = p.push(f);
    let g = settle(f);
    let gframes = frames.update(frames.len() - 1, g);
    assert(gframes =~= p.push(g));
    assert(gframes.drop_last() =~= p);
    let (w0, a0) = advance(frames);
    assert(w0.frames == gframes);
    if g.next >= deps(g).len() {
        assert(walk_after_advance(files, frames, 1) == deliver(p, b));
        assert(walk_started_after_advance(files, frames, 1) =~= names);
    } else {
        let file = deps(g)[g.next] + ".service"@;
        assert(a0 == WalkActionModel::Load(file));
        assert(w0.frames.last() == g);
        assert(forall|k: int| 0 <= k < gframes.len() ==> #[trigger] pending(gframes[k])) by {
            assert forall|k: int| 0 <= k < gframes.len() implies #[trigger] pending(gframes[k]) by {
                if k < p.len() {
                    assert(gframes[k] == p[k]);
                }
            }
        }
        let (c, cnames) = match files(g.dir, file) {
            None => (false, Seq::<Option<Seq<char>>>::empty()),
            Some((d, m)) => walk_outcome(files, frame_of(d, m), (fuel - 1) as nat).unwrap(),
        };
        let n1: nat = match files(g.dir, file) {
            None => 0,
            Some((d, m)) => {
                let df = frame_of(d, m);
                lemma_walk_frame(files, gframes, df, (fuel - 1) as nat, c, cnames);
                choose|n: nat|
                    #[trigger] walk_after_advance(files, gframes.push(df), n) == deliver(gframes, c)
                        && walk_started_after_advance(files, gframes.push(df), n) == cnames
            },
        };
        lemma_walk_steps_add(files, w0, a0, 1, n1);
        assert(walk_after_advance(files, frames, 1 + n1) == deliver(gframes, c));
        assert(walk_started_after_advance(files, frames, 1 + n1) =~= cnames);
        if !c && !g.in_wants {
            assert(deliver(gframes, c) == deliver(p, false));
        } else {
            let h = FrameModel { next: g.next + 1, ..g };
            assert(gframes.update(gframes.len() - 1, h) =~= p.push(h));
            let rest = walk_outcome(files, h, fuel).unwrap().1;
            lemma_walk_frame(files, p, h, fuel, b, rest);
            let n2 = choose|n: nat|
                #[trigger] walk_after_advance(files, p.push(h), n) == deliver(p, b)
                    && walk_started_after_advance(files, p.push(h), n) == rest;
            lemma_walk_steps_add(files, w0, a0, 1 + n1, n2);
            assert(walk_after_advance(files, frames, 1 + n1 + n2) == deliver(p, b));
            assert(walk_started_after_advance(files, frames, 1 + n1 + n2) =~= names);
        }
    }
}

/// A walk driven with the answers of a fixed set of service files does what starting
/// recursively does: where starting the service found as `root` recursively gives `b`
/// and starts the services `names`, in order (its dependencies nested no deeper than
/// `fuel`), the walk that `new` and `loaded(root)` begin starts exactly those services,
/// in that order, and reaches `Finished(b)`, with no service left, after finitely many
/// answered steps. In particular every service starts after the services it requires
/// and wants.
pub proof fn law_walk_finishes_as_recursion<D>(
    files: Files<D>,
    root: Option<(D, Map<Seq<char>, ValueModel>)>,
    fuel: nat,
    b: bool,
    names: Seq<Option<Seq<char>>>,
)
    requires
        walk_root_outcome(files, root, fuel) == Some((b, names)),
    ensures
        exists|n: nat|
            #[trigger] walk_steps(
                files,
                on_loaded(WalkModel { frames: Seq::empty(), waiting: Waiting::Load }, root).0,
                on_loaded(WalkModel { frames: Seq::empty(), waiting: Waiting::Load }, root).1,
                n,
            ) == (WalkModel::<D> { frames: Seq::empty(), waiting: Waiting::Done }, WalkActionModel::Finished(b))
                && walk_started(
                files,
                on_loaded(WalkModel { frames: Seq::empty(), waiting: Waiting::Load }, root).0,
                on_loaded(WalkModel { frames: Seq::empty(), waiting: Waiting::Load }, root).1,
                n,
            ) == names,
{
    let p = Seq::<FrameModel<D>>::empty();
    let w = WalkModel::<D> { frames: p, waiting: Waiting::Load };
    match root {
        None => {
            assert(walk_steps(files, on_loaded(w, root).0, on_loaded(w, root).1, 0) == (
                WalkModel::<D> { frames: Seq::empty(), waiting: Waiting::Done },
                WalkActionModel::Finished(b),
            ));
            assert(walk_started(files, on_loaded(w, root).0, on_loaded(w, root).1, 0) =~= names);
        },
        Some((d, m)) => {
            lemma_walk_frame(files, p, frame_of(d, m), fuel, b, names);
            let n = choose|n: nat|
                #[trigger] walk_after_advance(files, p.push(frame_of(d, m)), n) == deliver(p, b)
                    && walk_started_after_advance(files, p.push(frame_of(d, m)), n) == names;
            assert(walk_steps(files, on_loaded(w, root).0, on_loaded(w, root).1, n) == deliver(p, b));
        },
    }
}


/// Whether the service that `name` names, read from `dir`, starts when started
/// recursively with `fuel`.
pub open spec fn requirement_starts<D>(files: Files<D>, dir: D, name: Seq<char>, fuel: nat) -> bool {
    match files(dir, name + ".service"@) {
        None => false,
        Some((d, m)) => fuel > 0 && (walk_outcome(files, frame_of(d, m), (fuel - 1) as nat) matches Some(
            (true, _),
        )),
    }
}

proof fn lemma_wants_never_stop<D>(
    files: Files<D>,
    f: FrameModel<D>,
    fuel: nat,
    b: bool,
    names: Seq<Option<Seq<char>>>,
)
    requires
        f.in_wants,
        0 <= f.next <= f.wants.len(),
        walk_outcome(files, f, fuel) == Some((b, names)),
    ensures
        b,
    decreases walk_measure(f),
{
    let g = settle(f);
    assert(g == f);
    if g.next < deps(g).len() {
        let h = FrameModel { next: g.next + 1, ..g };
        let (b2, n2) = walk_outcome(files, h, fuel).unwrap();
        lemma_wants_never_stop(files, h, fuel, b2, n2);
    }
}

proof fn lemma_started_iff_required<D>(
    files: Files<D>,
    f: FrameModel<D>,
    fuel: nat,
    b: bool,
    names: Seq<Option<Seq<char>>>,
)
    requires
        !f.in_wants,
        0 <= f.next <= f.requires.len(),
        walk_outcome(files, f, fuel) == Some((b, names)),
    ensures
        b == (forall|j: int|
            f.next <= j < f.requires.len() ==> #[trigger] requirement_starts(
                files,
                f.dir,
                f.requires[j],
                fuel,
            )),
    decreases walk_measure(f),
{
    let g = settle(f);
    if f.next >= f.requires.len() {
        if g.next < deps(g).len() {
            let h = FrameModel { next: g.next + 1, ..g };
            let (b2, n2) = walk_outcome(files, h, fuel).unwrap();
            lemma_wants_never_stop(files, h, fuel, b2, n2);
        }
    } else {
        assert(g == f);
        let name = f.requires[f.next];
        let first = requirement_starts(files, f.dir, name, fuel);
        let c = match files(g.dir, deps(g)[g.next] + ".service"@) {
            None => false,
            Some((d, m)) => walk_outcome(files, frame_of(d, m), (fuel - 1) as nat).unwrap().0,
        };
        assert(c == first);
        if !c {
            assert(!requirement_starts(files, f.dir, f.requires[f.next], fuel));
        } else {
            let h = FrameModel { next: g.next + 1, ..g };
            let (b2, n2) = walk_outcome(files, h, fuel).unwrap();
            lemma_started_iff_required(files, h, fuel, b2, n2);
            assert(b == b2);
            if b {
                assert forall|j: int| f.next <= j < f.requires.len() implies #[trigger]
                    requirement_starts(files, f.dir, f.requires[j], fuel) by {
                    if j > f.next {
                        assert(requirement_starts(files, h.dir, h.requires[j], fuel));
                    }
                }
            } else {
                let j = choose|j: int|
                    h.next <= j < h.requires.len() && !#[trigger] requirement_starts(
                        files,
                        h.dir,
                        h.requires[j],
                        fuel,
                    );
                assert(!requirement_starts(files, f.dir, f.requires[j], fuel));
            }
        }
    }
}

/// A service starts exactly when each service it requires starts, started the same way
/// from the service's directory; what becomes of the services it wants never changes
/// that.
pub proof fn law_walk_started_iff_required_started<D>(
    files: Files<D>,
    dir: D,
    m: Map<Seq<char>, ValueModel>,
    fuel: nat,
    b: bool,
    names: Seq<Option<Seq<char>>>,
)
    requires
        walk_outcome(files, frame_of(dir, m), fuel) == Some((b, names)),
    ensures
        b == (forall|j: int|
            0 <= j < array_at(m, "service.requires"@).len() ==> #[trigger] requirement_starts(
                files,
                dir,
                array_at(m, "service.requires"@)[j],
                fuel,
            )),
{
    lemma_started_iff_required(files, frame_of(dir, m), fuel, b, names);
}

/// A service that requires itself, as its first requirement, never gets started: the
/// recursive start runs out of fuel, however much it is given.
pub proof fn law_self_requirement_never_ends<D>(
    files: Files<D>,
    dir: D,
    m: Map<Seq<char>, ValueModel>,
    fuel: nat,
)
    requires
        array_at(m, "service.requires"@).len() > 0,
        files(dir, array_at(m, "service.requires"@)[0] + ".service"@) == Some((dir, m)),
    ensures
        walk_outcome(files, frame_of(dir, m), fuel) is None,
    decreases fuel,
{
    if fuel > 0 {
        law_self_requirement_never_ends(files, dir, m, (fuel - 1) as nat);
    }
}

}
