//! The order in which a reviewed selection is deleted, as a machine that names one
//! action at a time and is told how it went. The manifest that was reviewed is all it
//! knows: nothing is ever enumerated while deleting.
use crate::model;
use crate::model::{Node, Snapshot, NONE, UNKNOWN_MTIME};
use crate::platform;
use crate::platform::{Identity, VolumeInfo};
use crate::selection;
use crate::selection::TreeSelection;
use crate::text;
use crate::tree;
use crate::tree::Count;
use crate::walk;
use vstd::prelude::*;
use vstd::string::*;

verus! {

/// No directory is entered below this depth.
pub const MAX_DEPTH: usize = 256;

/// So many error texts are kept.
pub const MAX_ERRORS: usize = 100;

/// So often is an occupied object tried.
pub const ATTEMPTS: u8 = 3;

/// What the review recorded of one object: its type, its allocation and, for files, size
/// and modification time.
#[derive(Clone, Copy, Debug)]
pub struct ReviewedNode {
    pub length: u64,
    pub allocated: u64,
    pub modified: i64,
    pub is_dir: bool,
    pub is_reparse: bool,
}

/// How an opened object differs from what was reviewed.
#[derive(Clone, Copy, Debug, PartialEq, Eq, Structural)]
pub enum ReviewFault {
    TypeChanged,
    SizeChanged,
    TimeChanged,
}

impl ReviewFault {
    pub open spec fn text(self) -> Seq<char> {
        match self {
            ReviewFault::TypeChanged => "target type changed since review"@,
            ReviewFault::SizeChanged => "file size changed after review; refresh required"@,
            ReviewFault::TimeChanged => {
                "file modification time changed after review; refresh required"@
            },
        }
    }

    pub fn message(self) -> (r: String)
        ensures
            r@ == self.text(),
    {
        match self {
            ReviewFault::TypeChanged => "target type changed since review".to_owned(),
            ReviewFault::SizeChanged => {
                "file size changed after review; refresh required".to_owned()
            },
            ReviewFault::TimeChanged => {
                "file modification time changed after review; refresh required".to_owned()
            },
        }
    }
}

/// What was reviewed of a node.
pub open spec fn reviewed_of(n: Node) -> ReviewedNode {
    ReviewedNode {
        length: n.logical,
        allocated: n.allocated,
        modified: n.oldest_modified_ms,
        is_dir: n.dir(),
        is_reparse: n.reparse(),
    }
}

/// How the object behind a handle differs from the reviewed one, if it does.
pub open spec fn review_fault(r: ReviewedNode, actual: Identity) -> Option<ReviewFault> {
    if actual.dir() != r.is_dir || actual.reparse() != r.is_reparse {
        Some(ReviewFault::TypeChanged)
    } else if r.is_dir {
        None
    } else if actual.length != r.length {
        Some(ReviewFault::SizeChanged)
    } else if r.modified != UNKNOWN_MTIME && platform::unix_ms(actual.modified) != Some(r.modified) {
        Some(ReviewFault::TimeChanged)
    } else {
        None
    }
}

impl ReviewedNode {
    pub fn of(tree: &Snapshot, id: u32) -> (r: Self)
        requires
            id < tree.nodes.len(),
        ensures
            r == reviewed_of(tree.nodes@[id as int]),
    {
        let node: Node = tree.nodes[id as usize];
        ReviewedNode {
            length: node.logical,
            allocated: node.allocated,
            modified: node.oldest_modified_ms,
            is_dir: node.is_dir(),
            is_reparse: node.is_reparse(),
        }
    }

    /// Holds the object behind an opened handle against what was reviewed.
    pub fn check(&self, actual: &Identity) -> (r: Option<ReviewFault>)
        ensures
            r == review_fault(*self, *actual),
            r is None && !self.is_dir ==> actual.length == self.length,
            r is None && !self.is_dir && self.modified != i64::MIN ==> actual.modified > 0
                && actual.modified as int / 10_000 - 11_644_473_600_000 == self.modified,
    {
        if actual.is_dir() != self.is_dir || actual.is_reparse() != self.is_reparse {
            return Some(ReviewFault::TypeChanged);
        }
        if !self.is_dir {
            if actual.length != self.length {
                return Some(ReviewFault::SizeChanged);
            }
            if self.modified != UNKNOWN_MTIME {
                match platform::modified_unix_ms(actual.modified) {
                    Some(t) => {
                        if t != self.modified {
                            return Some(ReviewFault::TimeChanged);
                        }
                    },
                    None => {
                        return Some(ReviewFault::TimeChanged);
                    },
                }
            }
        }
        None
    }
}

/// What a run has come to.
#[derive(Debug)]
pub struct Outcome {
    pub processed: u64,
    pub removed: u64,
    pub failed: u64,
    pub removed_bytes: u64,
    pub cancelled: bool,
    pub errors: Vec<String>,
    pub before: Vec<VolumeInfo>,
    pub after: Vec<VolumeInfo>,
}

impl Default for Outcome {
    fn default() -> (r: Self)
        ensures
            r.processed == 0,
            r.removed == 0,
            r.failed == 0,
            r.removed_bytes == 0,
            !r.cancelled,
            r.errors@.len() == 0,
            r.before@.len() == 0,
            r.after@.len() == 0,
    {
        Outcome {
            processed: 0,
            removed: 0,
            failed: 0,
            removed_bytes: 0,
            cancelled: false,
            errors: Vec::new(),
            before: Vec::new(),
            after: Vec::new(),
        }
    }
}

/// What the machine is waiting for.
#[derive(Clone, Copy, Debug, PartialEq, Eq, Structural)]
pub enum Phase {
    /// Nothing has begun.
    Start,
    /// The object is to be opened, after so many tries.
    Opening { id: u32, tries: u8 },
    /// The object is occupied, and the user is asked.
    Asking { id: u32, tries: u8 },
    /// The innermost open object is to be unlinked.
    Unlinking,
    /// The run is over; `true` if everything selected is gone.
    Done(bool),
}

/// What is to be done next.
#[derive(Clone, Copy, Debug, PartialEq, Eq, Structural)]
pub enum Action {
    /// Open the object without following links, for deletion or just to pin it.
    Open { id: u32, delete_this: bool },
    /// Ask the user what to do about an occupied object.
    Ask { id: u32 },
    /// Unlink the innermost open object by its handle.
    Unlink { id: u32 },
    /// Nothing is left to do.
    Finish { all_gone: bool },
}

/// How an action went.
pub enum Report<'a> {
    /// Nothing was asked for yet.
    Begin,
    /// The object is open.
    Opened(&'a Identity),
    /// The object could not be opened because it may be occupied.
    Occupied,
    /// The user wants another try.
    Retry,
    /// The user leaves the object alone.
    Skip,
    /// The object was unlinked.
    Unlinked,
    /// It did not work, for this reason.
    Failed(&'a str),
}

/// A report in mathematical terms.
pub enum ReportV {
    Begin,
    Opened(Identity),
    Occupied,
    Retry,
    Skip,
    Unlinked,
    Failed(Seq<char>),
}

impl<'a> View for Report<'a> {
    type V = ReportV;

    open spec fn view(&self) -> ReportV {
        match self {
            Report::Begin => ReportV::Begin,
            Report::Opened(i) => ReportV::Opened(**i),
            Report::Occupied => ReportV::Occupied,
            Report::Retry => ReportV::Retry,
            Report::Skip => ReportV::Skip,
            Report::Unlinked => ReportV::Unlinked,
            Report::Failed(e) => ReportV::Failed(e@),
        }
    }
}

/// What was reviewed and selected.
pub struct Job {
    pub root: Seq<u16>,
    pub nodes: Seq<Node>,
    pub names: Seq<u16>,
    pub marks: Seq<bool>,
    pub sums: Seq<Count>,
}

/// An open object: how many of its children were taken up, and whether all of those are
/// clear of selected objects.
pub struct Level {
    pub id: u32,
    pub next: nat,
    pub clear: bool,
}

/// The state of the machine.
#[verifier::ext_equal]
pub struct Run {
    pub levels: Seq<Level>,
    pub phase: Phase,
    pub processed: u64,
    pub removed: u64,
    pub failed: u64,
    pub bytes: u64,
    pub errors: Seq<Seq<char>>,
    /// The objects that were unlinked.
    pub gone: Set<u32>,
}

pub open spec fn bumped(n: u64) -> u64 {
    if n < u64::MAX {
        (n + 1) as u64
    } else {
        n
    }
}

pub open spec fn added(n: u64, m: u64) -> u64 {
    if n + m <= u64::MAX {
        (n + m) as u64
    } else {
        u64::MAX
    }
}

/// The reviewed children that a walk into the object meets; links are never entered.
pub open spec fn inside(job: Job, id: int) -> Seq<u32> {
    if job.nodes[id].dir() && !job.nodes[id].reparse() {
        tree::kids(job.nodes, id)
    } else {
        Seq::empty()
    }
}

pub open spec fn path_text(job: Job, id: u32) -> Seq<char> {
    platform::shown(model::words_at(job.root, job.nodes, job.names, id))
}

/// A failure noted under a path.
pub open spec fn noted(run: Run, path: Seq<char>, why: Seq<char>) -> Run {
    Run {
        failed: bumped(run.failed),
        errors: if run.errors.len() < MAX_ERRORS {
            run.errors.push(path + ": "@ + why)
        } else {
            run.errors
        },
        ..run
    }
}

/// A failure that ends the work on an object.
pub open spec fn gave_up(job: Job, run: Run, id: u32, why: Seq<char>) -> Run {
    noted(Run { processed: bumped(run.processed), ..run }, path_text(job, id), why)
}

pub open spec fn closed_top(run: Run) -> Run {
    Run { levels: run.levels.drop_last(), ..run }
}

/// The children of the innermost open object that were not taken up yet.
pub open spec fn left(job: Job, run: Run) -> nat {
    if run.levels.len() == 0 {
        0
    } else {
        let f = run.levels.last();
        let all = inside(job, f.id as int).len();
        if f.next <= all {
            (all - f.next) as nat
        } else {
            0
        }
    }
}

/// Takes up an object.
pub open spec fn visit(job: Job, run: Run, id: u32, cancel: bool) -> Run
    decreases run.levels.len(), left(job, run), 2nat,
{
    if job.sums[id as int].items() == 0 {
        back(job, run, true, cancel)
    } else if cancel {
        back(job, run, false, cancel)
    } else if run.levels.len() > MAX_DEPTH {
        back(
            job,
            noted(run, path_text(job, id), "directory nesting exceeds safe deletion depth"@),
            false,
            cancel,
        )
    } else {
        Run { phase: Phase::Opening { id, tries: 0 }, ..run }
    }
}

/// Goes back to the object above, telling whether the one below is clear.
pub open spec fn back(job: Job, run: Run, ok: bool, cancel: bool) -> Run
    decreases run.levels.len(), left(job, run), 1nat,
{
    if run.levels.len() == 0 {
        Run { phase: Phase::Done(ok), ..run }
    } else {
        let f = run.levels.last();
        if cancel {
            back(job, closed_top(run), false, cancel)
        } else {
            resume(
                job,
                Run {
                    levels: run.levels.drop_last().push(Level { clear: f.clear && ok, ..f }),
                    ..run
                },
                cancel,
            )
        }
    }
}

/// Goes on with the innermost open object.
pub open spec fn resume(job: Job, run: Run, cancel: bool) -> Run
    decreases run.levels.len(), left(job, run), 0nat,
{
    if run.levels.len() == 0 {
        run
    } else {
        let f = run.levels.last();
        let all = inside(job, f.id as int);
        if f.next < all.len() {
            visit(
                job,
                Run { levels: run.levels.drop_last().push(Level { next: f.next + 1, ..f }), ..run },
                all[f.next as int],
                cancel,
            )
        } else if !job.marks[f.id as int] {
            back(job, closed_top(run), f.clear, cancel)
        } else if !f.clear {
            back(
                job,
                gave_up(
                    job,
                    closed_top(run),
                    f.id,
                    "kept directory because a reviewed child was not removed"@,
                ),
                false,
                cancel,
            )
        } else {
            Run { phase: Phase::Unlinking, ..run }
        }
    }
}

/// The state after a report.
pub open spec fn after(job: Job, run: Run, report: ReportV, cancel: bool) -> Run {
    match (run.phase, report) {
        (Phase::Start, ReportV::Begin) => visit(job, run, 0, cancel),
        (Phase::Opening { id, tries }, ReportV::Opened(actual)) => {
            match review_fault(reviewed_of(job.nodes[id as int]), actual) {
                None => resume(
                    job,
                    Run { levels: run.levels.push(Level { id, next: 0, clear: true }), ..run },
                    cancel,
                ),
                Some(f) => back(job, gave_up(job, run, id, f.text()), false, cancel),
            }
        },
        (Phase::Opening { id, tries }, ReportV::Occupied) => Run {
            phase: Phase::Asking { id, tries },
            ..run
        },
        (Phase::Opening { id, tries }, ReportV::Failed(why)) => back(
            job,
            gave_up(job, run, id, why),
            false,
            cancel,
        ),
        (Phase::Asking { id, tries }, ReportV::Retry) => if tries + 1 < ATTEMPTS {
            Run { phase: Phase::Opening { id, tries: (tries + 1) as u8 }, ..run }
        } else {
            back(
                job,
                gave_up(job, run, id, "still occupied after three user-directed attempts"@),
                false,
                cancel,
            )
        },
        (Phase::Asking { id, tries }, ReportV::Skip) => back(
            job,
            gave_up(job, run, id, "skipped occupied item"@),
            false,
            cancel,
        ),
        (Phase::Asking { id, tries }, ReportV::Failed(why)) => back(
            job,
            gave_up(job, run, id, why),
            false,
            cancel,
        ),
        (Phase::Unlinking, ReportV::Unlinked) => {
            let id = run.levels.last().id;
            let n = job.nodes[id as int];
            back(
                job,
                closed_top(
                    Run {
                        processed: bumped(run.processed),
                        removed: bumped(run.removed),
                        bytes: if n.dir() {
                            run.bytes
                        } else {
                            added(run.bytes, n.allocated)
                        },
                        gone: run.gone.insert(id),
                        ..run
                    },
                ),
                true,
                cancel,
            )
        },
        (Phase::Unlinking, ReportV::Failed(why)) => back(
            job,
            closed_top(gave_up(job, run, run.levels.last().id, why)),
            false,
            cancel,
        ),
        _ => run,
    }
}

/// What a state asks for.
pub open spec fn asked(job: Job, run: Run) -> Action {
    match run.phase {
        Phase::Start => Action::Finish { all_gone: false },
        Phase::Opening { id, tries } => Action::Open { id, delete_this: job.marks[id as int] },
        Phase::Asking { id, tries } => Action::Ask { id },
        Phase::Unlinking => Action::Unlink { id: run.levels.last().id },
        Phase::Done(ok) => Action::Finish { all_gone: ok },
    }
}

/// An open object.
struct Frame {
    id: u32,
    kids: Vec<u32>,
    next: usize,
    clear: bool,
}

spec fn level_of(f: Frame) -> Level {
    Level { id: f.id, next: f.next as nat, clear: f.clear }
}

spec fn levels_of(frames: Seq<Frame>) -> Seq<Level> {
    frames.map_values(|f: Frame| level_of(f))
}

spec fn frames_fit(frames: Seq<Frame>, job: Job) -> bool {
    forall|i: int|
        0 <= i < frames.len() ==> {
            let f = #[trigger] frames[i];
            &&& f.id < job.nodes.len()
            &&& f.kids@ == inside(job, f.id as int)
            &&& f.next <= f.kids@.len()
        }
}

spec fn phase_fits(phase: Phase, frames: Seq<Frame>, job: Job) -> bool {
    match phase {
        Phase::Opening { id, tries } => id < job.nodes.len() && tries < ATTEMPTS,
        Phase::Asking { id, tries } => id < job.nodes.len() && tries < ATTEMPTS,
        Phase::Unlinking => frames.len() > 0,
        _ => true,
    }
}

/// The deletion of one reviewed selection.
pub struct Executor {
    frames: Vec<Frame>,
    phase: Phase,
    outcome: Outcome,
    gone: Ghost<Set<u32>>,
}

/// What a tree and a selection describe.
pub open spec fn job_of(tree: Snapshot, sel: TreeSelection) -> Job {
    Job {
        root: tree.root@,
        nodes: tree.nodes@,
        names: tree.names@,
        marks: sel.marks(),
        sums: sel.sums(),
    }
}

/// A tree with its names, and a selection of its nodes.
pub open spec fn job_ok(job: Job) -> bool {
    &&& selection::selectable(job.nodes)
    &&& model::names_inside(job.nodes, job.names.len())
    &&& selection::settled(job.nodes, job.marks, job.sums)
}

/// Where to go next.
enum Turn {
    Visit(u32),
    Back(bool),
    Resume,
}

spec fn turned(job: Job, run: Run, turn: Turn, cancel: bool) -> Run {
    match turn {
        Turn::Visit(id) => visit(job, run, id, cancel),
        Turn::Back(ok) => back(job, run, ok, cancel),
        Turn::Resume => resume(job, run, cancel),
    }
}

spec fn turn_rank(turn: Turn) -> int {
    match turn {
        Turn::Visit(_) => 3,
        Turn::Back(_) => 2,
        Turn::Resume => 1,
    }
}

fn bump(n: u64) -> (r: u64)
    ensures
        r == bumped(n),
{
    if n < 0xffff_ffff_ffff_ffff {
        n + 1
    } else {
        n
    }
}

impl Outcome {
    /// Counts a failure and keeps its text while there is room.
    pub fn error(&mut self, path: &str, why: &str)
        ensures
            final(self).failed == bumped(old(self).failed),
            text::views(final(self).errors@) == if old(self).errors@.len() < MAX_ERRORS {
                text::views(old(self).errors@).push(path@ + ": "@ + why@)
            } else {
                text::views(old(self).errors@)
            },
            final(self).processed == old(self).processed,
            final(self).removed == old(self).removed,
            final(self).removed_bytes == old(self).removed_bytes,
            final(self).cancelled == old(self).cancelled,
            final(self).before == old(self).before,
            final(self).after == old(self).after,
    {
        self.failed = bump(self.failed);
        if self.errors.len() < MAX_ERRORS {
            let head: String = text::glue(path, ": ");
            let line: String = text::glue(&head, why);
            let ghost had = self.errors@;
            self.errors.push(line);
            assert(text::views(self.errors@) =~= text::views(had).push(
                path@ + ": "@ + why@,
            ));
        }
    }
}

impl Executor {
    pub closed spec fn run(&self) -> Run {
        Run {
            levels: levels_of(self.frames@),
            phase: self.phase,
            processed: self.outcome.processed,
            removed: self.outcome.removed,
            failed: self.outcome.failed,
            bytes: self.outcome.removed_bytes,
            errors: text::views(self.outcome.errors@),
            gone: self.gone@,
        }
    }

    /// The open objects are objects of this tree.
    pub closed spec fn fits(&self, job: Job) -> bool {
        frames_fit(self.frames@, job) && phase_fits(self.phase, self.frames@, job)
    }

    /// What the run has come to so far.
    pub closed spec fn result(&self) -> Outcome {
        self.outcome
    }

    pub fn outcome(&self) -> (r: &Outcome)
        ensures
            *r == self.result(),
    {
        &self.outcome
    }

    pub fn into_outcome(self) -> (r: Outcome)
        ensures
            r == self.result(),
    {
        self.outcome
    }

    /// Notes a failure that concerns a whole target.
    pub fn error(&mut self, path: &str, why: &str)
        ensures
            final(self).run() == noted(old(self).run(), platform::shown(path@), why@),
            forall|job: Job| old(self).fits(job) ==> #[trigger] final(self).fits(job),
            final(self).result().cancelled == old(self).result().cancelled,
            final(self).result().before == old(self).result().before,
            final(self).result().after == old(self).result().after,
    {
        let shown: String = platform::display_path(path);
        self.outcome.error(&shown, why);
    }

    pub fn new() -> (r: Self)
        ensures
            r.run() == (Run {
                levels: Seq::empty(),
                phase: Phase::Start,
                processed: 0,
                removed: 0,
                failed: 0,
                bytes: 0,
                errors: Seq::empty(),
                gone: Set::empty(),
            }),
            forall|job: Job| #[trigger] r.fits(job),
            !r.result().cancelled,
            r.result().before@.len() == 0,
            r.result().after@.len() == 0,
    {
        let r = Executor {
            frames: Vec::new(),
            phase: Phase::Start,
            outcome: Outcome::default(),
            gone: Ghost(Set::empty()),
        };
        assert(levels_of(r.frames@) =~= Seq::<Level>::empty());
        assert(text::views(r.outcome.errors@) =~= Seq::<Seq<char>>::empty());
        r
    }

    /// Gets ready for another selection; what the run has come to so far is kept.
    pub fn begin(&mut self)
        ensures
            final(self).run() == (Run {
                levels: Seq::empty(),
                phase: Phase::Start,
                gone: Set::empty(),
                ..old(self).run()
            }),
            forall|job: Job| #[trigger] final(self).fits(job),
            final(self).result() == old(self).result(),
    {
        self.frames = Vec::new();
        self.phase = Phase::Start;
        self.gone = Ghost(Set::empty());
        assert(levels_of(self.frames@) =~= Seq::<Level>::empty());
    }

    /// How many objects are open; handles beyond that are to be closed.
    pub fn open_count(&self) -> (r: usize)
        ensures
            r == self.run().levels.len(),
    {
        self.frames.len()
    }

    fn give_up(&mut self, tree: &Snapshot, sel: &TreeSelection, id: u32, why: &str)
        requires
            job_ok(job_of(*tree, *sel)),
            id < tree.nodes.len(),
        ensures
            final(self).run() == gave_up(job_of(*tree, *sel), old(self).run(), id, why@),
            final(self).frames == old(self).frames,
            final(self).phase == old(self).phase,
            final(self).gone == old(self).gone,
            final(self).outcome.cancelled == old(self).outcome.cancelled,
            final(self).outcome.before == old(self).outcome.before,
            final(self).outcome.after == old(self).outcome.after,
    {
        proof {
            lemma_parents_inside(tree.nodes@);
        }
        let path: String = platform::display_path(&tree.path(id).to_text());
        self.outcome.processed = bump(self.outcome.processed);
        self.outcome.error(&path, why);
    }

    /// Follows the reviewed tree until something has to be done.
    fn advance(&mut self, tree: &Snapshot, sel: &TreeSelection, turn: Turn, cancel: bool)
        requires
            job_ok(job_of(*tree, *sel)),
            frames_fit(old(self).frames@, job_of(*tree, *sel)),
            turn matches Turn::Visit(id) ==> id < tree.nodes.len(),
            turn is Resume ==> old(self).frames@.len() > 0,
        ensures
            final(self).run() == turned(job_of(*tree, *sel), old(self).run(), turn, cancel),
            final(self).fits(job_of(*tree, *sel)),
            final(self).outcome.cancelled == old(self).outcome.cancelled,
            final(self).outcome.before == old(self).outcome.before,
            final(self).outcome.after == old(self).outcome.after,
    {
        let ghost job = job_of(*tree, *sel);
        let ghost goal = turned(job, self.run(), turn, cancel);
        let mut now: Turn = turn;
        let mut busy: bool = true;
        while busy
            invariant
                job == job_of(*tree, *sel),
                job_ok(job),
                frames_fit(self.frames@, job),
                self.outcome.cancelled == old(self).outcome.cancelled,
                self.outcome.before == old(self).outcome.before,
                self.outcome.after == old(self).outcome.after,
                busy ==> goal == turned(job, self.run(), now, cancel) && (
                now matches Turn::Visit(id) ==> id < tree.nodes.len()) && (
                now is Resume ==> self.frames@.len() > 0),
                !busy ==> goal == self.run() && phase_fits(self.phase, self.frames@, job),
            decreases
                self.frames@.len(),
                left(job, self.run()),
                if busy {
                    turn_rank(now)
                } else {
                    0
                },
        {
            let ghost before = self.run();
            match now {
                Turn::Visit(id) => {
                    if sel.totals(id).items() == 0 {
                        now = Turn::Back(true);
                    } else if cancel {
                        now = Turn::Back(false);
                    } else if self.frames.len() > MAX_DEPTH {
                        proof {
                            lemma_parents_inside(tree.nodes@);
                        }
                        let path: String = platform::display_path(&tree.path(id).to_text());
                        self.outcome.error(&path, "directory nesting exceeds safe deletion depth");
                        now = Turn::Back(false);
                    } else {
                        self.phase = Phase::Opening { id, tries: 0 };
                        busy = false;
                    }
                },
                Turn::Back(ok) => {
                    match self.frames.pop() {
                        None => {
                            self.phase = Phase::Done(ok);
                            busy = false;
                        },
                        Some(f) => {
                            assert(levels_of(self.frames@) =~= before.levels.drop_last());
                            if cancel {
                                now = Turn::Back(false);
                            } else {
                                let clear: bool = f.clear && ok;
                                let f = Frame { id: f.id, kids: f.kids, next: f.next, clear };
                                self.frames.push(f);
                                assert(levels_of(self.frames@) =~= before.levels.drop_last().push(
                                    level_of(f),
                                ));
                                now = Turn::Resume;
                            }
                        },
                    }
                },
                Turn::Resume => {
                    match self.frames.pop() {
                        None => {
                            busy = false;
                        },
                        Some(f) => {
                            assert(levels_of(self.frames@) =~= before.levels.drop_last());
                            assert(before.levels.last() == level_of(f));
                            if f.next < f.kids.len() {
                                let k: u32 = f.kids[f.next];
                                proof {
                                    lemma_inside(job, f.id as int, f.next as int);
                                }
                                let f = Frame {
                                    id: f.id,
                                    kids: f.kids,
                                    next: f.next + 1,
                                    clear: f.clear,
                                };
                                self.frames.push(f);
                                assert(levels_of(self.frames@) =~= before.levels.drop_last().push(
                                    level_of(f),
                                ));
                                now = Turn::Visit(k);
                            } else if !sel.selected(f.id) {
                                now = Turn::Back(f.clear);
                            } else if !f.clear {
                                self.give_up(
                                    tree,
                                    sel,
                                    f.id,
                                    "kept directory because a reviewed child was not removed",
                                );
                                now = Turn::Back(false);
                            } else {
                                self.frames.push(f);
                                assert(levels_of(self.frames@) =~= before.levels);
                                self.phase = Phase::Unlinking;
                                busy = false;
                            }
                        },
                    }
                },
            }
        }
    }

    /// Takes a report and names the next action.
    pub fn step(
        &mut self,
        tree: &Snapshot,
        sel: &TreeSelection,
        report: Report<'_>,
        cancel: bool,
    ) -> (r: Action)
        requires
            job_ok(job_of(*tree, *sel)),
            old(self).fits(job_of(*tree, *sel)),
        ensures
            final(self).run() == after(job_of(*tree, *sel), old(self).run(), report@, cancel),
            final(self).fits(job_of(*tree, *sel)),
            r == asked(job_of(*tree, *sel), final(self).run()),
            final(self).result().cancelled == old(self).result().cancelled,
            final(self).result().before == old(self).result().before,
            final(self).result().after == old(self).result().after,
    {
        let ghost job = job_of(*tree, *sel);
        let ghost before = self.run();
        match (self.phase, report) {
            (Phase::Start, Report::Begin) => {
                self.advance(tree, sel, Turn::Visit(0), cancel);
            },
            (Phase::Opening { id, .. }, Report::Opened(actual)) => {
                let reviewed = ReviewedNode::of(tree, id);
                match reviewed.check(actual) {
                    None => {
                        let kids: Vec<u32> = if reviewed.is_dir && !reviewed.is_reparse {
                            assert(tree::chain_ok(tree.nodes@, id as int));
                            tree.child_ids(id)
                        } else {
                            Vec::new()
                        };
                        let f = Frame { id, kids, next: 0, clear: true };
                        assert(f.kids@ =~= inside(job, id as int));
                        self.frames.push(f);
                        assert(levels_of(self.frames@) =~= before.levels.push(level_of(f)));
                        self.advance(tree, sel, Turn::Resume, cancel);
                    },
                    Some(fault) => {
                        let why: String = fault.message();
                        self.give_up(tree, sel, id, &why);
                        self.advance(tree, sel, Turn::Back(false), cancel);
                    },
                }
            },
            (Phase::Opening { id, tries }, Report::Occupied) => {
                self.phase = Phase::Asking { id, tries };
            },
            (Phase::Opening { id, .. }, Report::Failed(why)) => {
                self.give_up(tree, sel, id, why);
                self.advance(tree, sel, Turn::Back(false), cancel);
            },
            (Phase::Asking { id, tries }, Report::Retry) => {
                if tries + 1 < ATTEMPTS {
                    self.phase = Phase::Opening { id, tries: tries + 1 };
                } else {
                    self.give_up(
                        tree,
                        sel,
                        id,
                        "still occupied after three user-directed attempts",
                    );
                    self.advance(tree, sel, Turn::Back(false), cancel);
                }
            },
            (Phase::Asking { id, .. }, Report::Skip) => {
                self.give_up(tree, sel, id, "skipped occupied item");
                self.advance(tree, sel, Turn::Back(false), cancel);
            },
            (Phase::Asking { id, .. }, Report::Failed(why)) => {
                self.give_up(tree, sel, id, why);
                self.advance(tree, sel, Turn::Back(false), cancel);
            },
            (Phase::Unlinking, Report::Unlinked) => {
                if let Some(f) = self.frames.pop() {
                    let n: Node = tree.nodes[f.id as usize];
                    self.outcome.processed = bump(self.outcome.processed);
                    self.outcome.removed = bump(self.outcome.removed);
                    if !n.is_dir() {
                        self.outcome.removed_bytes = self.outcome.removed_bytes.saturating_add(
                            n.allocated,
                        );
                    }
                    proof {
                        self.gone@ = self.gone@.insert(f.id);
                        assert(levels_of(self.frames@) =~= before.levels.drop_last());
                        assert(before.levels.last() == level_of(f));
                    }
                    self.advance(tree, sel, Turn::Back(true), cancel);
                }
            },
            (Phase::Unlinking, Report::Failed(why)) => {
                if let Some(f) = self.frames.pop() {
                    proof {
                        assert(levels_of(self.frames@) =~= before.levels.drop_last());
                        assert(before.levels.last() == level_of(f));
                    }
                    self.give_up(tree, sel, f.id, why);
                    self.advance(tree, sel, Turn::Back(false), cancel);
                }
            },
            _ => {},
        }
        match self.phase {
            Phase::Start => Action::Finish { all_gone: false },
            Phase::Opening { id, .. } => Action::Open { id, delete_this: sel.selected(id) },
            Phase::Asking { id, .. } => Action::Ask { id },
            Phase::Unlinking => {
                let n: usize = self.frames.len();
                assert(self.run().levels.last() == level_of(self.frames@[n - 1]));
                Action::Unlink { id: self.frames[n - 1].id }
            },
            Phase::Done(ok) => Action::Finish { all_gone: ok },
        }
    }
}

proof fn lemma_parents_inside(nodes: Seq<Node>)
    requires
        selection::selectable(nodes),
    ensures
        model::parents_inside(nodes),
{
    assert forall|i: int| 0 <= i < nodes.len() implies (#[trigger] nodes[i]).parent == NONE
        || nodes[i].parent < nodes.len() by {
        if i > 0 {
            assert(nodes[i].parent < nodes.len());
        }
    }
}

proof fn lemma_inside(job: Job, id: int, j: int)
    requires
        job_ok(job),
        0 <= id < job.nodes.len(),
        0 <= j < inside(job, id).len(),
    ensures
        inside(job, id)[j] < job.nodes.len(),
{
    assert(tree::chain_ok(job.nodes, id));
    tree::lemma_kids(job.nodes, id);
}

/// The objects that a walk enters.
pub open spec fn enterable(job: Job) -> spec_fn(u32) -> bool {
    |k: u32| job.nodes[k as int].dir() && !job.nodes[k as int].reparse()
}

/// Everything that a walk into `k` meets, `k` included.
pub open spec fn met(job: Job, k: u32) -> Seq<u32> {
    walk::order(job.nodes, enterable(job), k)
}

/// Everything selected from `k` on is gone.
pub open spec fn cleared(job: Job, gone: Set<u32>, k: u32) -> bool {
    forall|j: u32| #[trigger] met(job, k).contains(j) && job.marks[j as int] ==> gone.contains(j)
}

/// Nothing from `k` on is gone.
pub open spec fn untouched(job: Job, gone: Set<u32>, k: u32) -> bool {
    forall|j: u32| #[trigger] met(job, k).contains(j) ==> !gone.contains(j)
}

/// How many children of level `i` are over and done with; `busy` tells that the last one
/// taken up at the innermost level is still being worked on.
pub open spec fn done_kids(levels: Seq<Level>, busy: bool, i: int) -> int {
    if i == levels.len() - 1 && !busy {
        levels[i].next as int
    } else {
        levels[i].next - 1
    }
}

/// Level `i` is an open object whose children are in order.
pub open spec fn level_ok(job: Job, run: Run, busy: bool, i: int) -> bool {
    let f = run.levels[i];
    let all = inside(job, f.id as int);
    let done = done_kids(run.levels, busy, i);
    &&& f.id < job.nodes.len()
    &&& f.next <= all.len()
    &&& 0 <= done
    &&& i == 0 ==> f.id == 0
    &&& i > 0 ==> ({
        let p = run.levels[i - 1];
        &&& 1 <= p.next <= inside(job, p.id as int).len()
        &&& f.id == inside(job, p.id as int)[p.next - 1]
    })
    &&& f.clear ==> forall|j: int| 0 <= j < done ==> cleared(job, run.gone, #[trigger] all[j])
    &&& forall|j: int|
        f.next <= j < all.len() ==> untouched(job, run.gone, #[trigger] all[j])
    &&& !run.gone.contains(f.id)
}

pub open spec fn levels_ok(job: Job, run: Run, busy: bool) -> bool {
    &&& forall|i: int| 0 <= i < run.levels.len() ==> #[trigger] level_ok(job, run, busy, i)
    &&& forall|g: u32| #[trigger] run.gone.contains(g) ==> g < job.nodes.len() && job.marks[g as int]
}

/// The object being worked on.
pub open spec fn current(job: Job, run: Run) -> u32 {
    if run.levels.len() == 0 {
        0
    } else {
        let f = run.levels.last();
        inside(job, f.id as int)[f.next - 1]
    }
}

/// What holds whenever the machine waits for a report.
pub open spec fn orderly(job: Job, run: Run) -> bool {
    match run.phase {
        Phase::Start => run.levels.len() == 0 && run.gone =~= Set::empty(),
        Phase::Opening { id, tries } => levels_ok(job, run, true) && id == current(job, run)
            && untouched(job, run.gone, id) && job.sums[id as int].items() > 0,
        Phase::Asking { id, tries } => levels_ok(job, run, true) && id == current(job, run)
            && untouched(job, run.gone, id) && job.sums[id as int].items() > 0,
        Phase::Unlinking => levels_ok(job, run, false) && run.levels.len() > 0 && ({
            let f = run.levels.last();
            f.clear && job.marks[f.id as int] && f.next == inside(job, f.id as int).len()
        }),
        Phase::Done(ok) => levels_ok(job, run, false) && run.levels.len() == 0 && (ok ==> cleared(
            job,
            run.gone,
            0,
        )),
    }
}

proof fn lemma_met(job: Job, k: u32)
    requires
        job_ok(job),
        k < job.nodes.len(),
    ensures
        met(job, k).contains(k),
        forall|j: u32| #[trigger] met(job, k).contains(j) ==> j < job.nodes.len() && walk::under(
            job.nodes,
            k as int,
            j as int,
        ),
        forall|j: u32| #[trigger] met(job, k).contains(j) && j != k ==> exists|c: int|
            0 <= c < inside(job, k as int).len() && met(job, inside(job, k as int)[c]).contains(j),
{
    let rank = choose|rank: Seq<nat>| tree::ranked(job.nodes, rank);
    walk::lemma_order_unfold(job.nodes, enterable(job), k);
    walk::lemma_order_sound(job.nodes, enterable(job), rank, k);
    assert(met(job, k)[0] == k);
    assert forall|j: u32| #[trigger] met(job, k).contains(j) implies j < job.nodes.len()
        && walk::under(job.nodes, k as int, j as int) by {
        let w = met(job, k).index_of(j);
        assert(met(job, k)[w] == j);
    }
    assert forall|j: u32| #[trigger] met(job, k).contains(j) && j != k implies exists|c: int|
        0 <= c < inside(job, k as int).len() && met(job, inside(job, k as int)[c]).contains(j) by {
        let w = met(job, k).index_of(j);
        assert(w > 0);
        let below = walk::orders(job.nodes, enterable(job), inside(job, k as int));
        assert(below[w - 1] == j);
        lemma_orders_from(job, inside(job, k as int), j);
    }
}

/// What is met from a list is met from one of its members.
proof fn lemma_orders_from(job: Job, ids: Seq<u32>, j: u32)
    requires
        walk::orders(job.nodes, enterable(job), ids).contains(j),
    ensures
        exists|c: int| 0 <= c < ids.len() && met(job, ids[c]).contains(j),
    decreases ids.len(),
{
    let all = walk::orders(job.nodes, enterable(job), ids);
    let w = all.index_of(j);
    if ids.len() > 0 {
        let top = met(job, ids.last());
        let rest = walk::orders(job.nodes, enterable(job), ids.drop_last());
        assert(all == top + rest);
        if w < top.len() {
            assert(top[w] == j);
            assert(met(job, ids[ids.len() - 1]).contains(j));
        } else {
            assert(rest[w - top.len()] == j);
            lemma_orders_from(job, ids.drop_last(), j);
            let c = choose|c: int|
                0 <= c < ids.drop_last().len() && met(job, ids.drop_last()[c]).contains(j);
            assert(met(job, ids[c]).contains(j));
        }
    }
}

/// If all children are clear and the object itself is not selected or gone, it is clear.
proof fn lemma_cleared_up(job: Job, gone: Set<u32>, k: u32)
    requires
        job_ok(job),
        k < job.nodes.len(),
        forall|j: int|
            0 <= j < inside(job, k as int).len() ==> cleared(
                job,
                gone,
                #[trigger] inside(job, k as int)[j],
            ),
        !job.marks[k as int] || gone.contains(k),
    ensures
        cleared(job, gone, k),
{
    lemma_met(job, k);
    assert forall|j: u32| #[trigger] met(job, k).contains(j) && job.marks[j as int] implies gone.contains(
        j,
    ) by {
        if j != k {
            let c = choose|c: int|
                0 <= c < inside(job, k as int).len() && met(
                    job,
                    inside(job, k as int)[c],
                ).contains(j);
            assert(cleared(job, gone, inside(job, k as int)[c]));
        }
    }
}

/// The children met inside an object are distinct children of it.
proof fn lemma_inside_kids(job: Job, id: int)
    requires
        job_ok(job),
        0 <= id < job.nodes.len(),
    ensures
        inside(job, id).no_duplicates(),
        forall|j: int|
            0 <= j < inside(job, id).len() ==> 1 <= (#[trigger] inside(job, id)[j])
                < job.nodes.len() && job.nodes[inside(job, id)[j] as int].parent == id
                && walk::under(job.nodes, id, inside(job, id)[j] as int),
{
    let ks = tree::kids(job.nodes, id);
    assert(tree::chain_ok(job.nodes, id));
    tree::lemma_kids(job.nodes, id);
    assert forall|j: int| 0 <= j < inside(job, id).len() implies 1 <= (#[trigger] inside(job, id)[j])
        < job.nodes.len() && job.nodes[inside(job, id)[j] as int].parent == id && walk::under(
        job.nodes,
        id,
        inside(job, id)[j] as int,
    ) by {
        assert(inside(job, id) == ks);
        assert(ks.contains(ks[j]));
        walk::lemma_under_self(job.nodes, id);
        walk::lemma_under_parent(job.nodes, id, ks[j] as int);
    }
}

/// Nothing selected below means clear already.
proof fn lemma_nothing_selected(job: Job, gone: Set<u32>, k: u32)
    requires
        job_ok(job),
        k < job.nodes.len(),
        job.sums[k as int].items() == 0,
    ensures
        cleared(job, gone, k),
{
    lemma_met(job, k);
    selection::lemma_nothing_marked(job.nodes, job.marks, job.sums, k as int);
}

proof fn lemma_visit(job: Job, run: Run, id: u32, cancel: bool)
    requires
        job_ok(job),
        levels_ok(job, run, true),
        id == current(job, run),
        run.levels.len() > 0 ==> run.levels.last().next >= 1,
        untouched(job, run.gone, id),
    ensures
        orderly(job, visit(job, run, id, cancel)),
    decreases run.levels.len(), left(job, run), 2nat,
{
    assert(id < job.nodes.len()) by {
        if run.levels.len() > 0 {
            let i = run.levels.len() - 1;
            assert(level_ok(job, run, true, i));
            lemma_inside_kids(job, run.levels[i].id as int);
        }
    }
    if job.sums[id as int].items() == 0 {
        lemma_nothing_selected(job, run.gone, id);
        lemma_back(job, run, true, cancel);
    } else if cancel {
        lemma_back(job, run, false, cancel);
    } else if run.levels.len() > MAX_DEPTH {
        let run2 = noted(
            run,
            path_text(job, id),
            "directory nesting exceeds safe deletion depth"@,
        );
        lemma_levels_same(job, run, run2, true);
        lemma_back(job, run2, false, cancel);
    } else {
        lemma_levels_same(
            job,
            run,
            Run { phase: Phase::Opening { id, tries: 0 }, ..run },
            true,
        );
    }
}

proof fn lemma_levels_same(job: Job, run: Run, run2: Run, busy: bool)
    requires
        levels_ok(job, run, busy),
        run2.levels == run.levels,
        run2.gone == run.gone,
    ensures
        levels_ok(job, run2, busy),
{
    assert forall|i: int| 0 <= i < run2.levels.len() implies #[trigger] level_ok(
        job,
        run2,
        busy,
        i,
    ) by {
        assert(level_ok(job, run, busy, i));
    }
}

/// Closing the innermost object leaves the one above busy with it.
proof fn lemma_close(job: Job, run: Run, busy: bool)
    requires
        levels_ok(job, run, busy),
        run.levels.len() > 0,
    ensures
        levels_ok(job, closed_top(run), true),
        run.levels.last().id == current(job, closed_top(run)),
{
    let run2 = closed_top(run);
    let n = run.levels.len() - 1;
    assert(level_ok(job, run, busy, n));
    assert forall|i: int| 0 <= i < run2.levels.len() implies #[trigger] level_ok(
        job,
        run2,
        true,
        i,
    ) by {
        assert(level_ok(job, run, busy, i));
        assert(run2.levels[i] == run.levels[i]);
        if i > 0 {
            assert(run2.levels[i - 1] == run.levels[i - 1]);
        }
    }
}

proof fn lemma_back(job: Job, run: Run, ok: bool, cancel: bool)
    requires
        job_ok(job),
        levels_ok(job, run, true),
        run.levels.len() > 0 ==> run.levels.last().next >= 1,
        ok ==> cleared(job, run.gone, current(job, run)),
    ensures
        orderly(job, back(job, run, ok, cancel)),
    decreases run.levels.len(), left(job, run), 1nat,
{
    if run.levels.len() == 0 {
        let run2 = Run { phase: Phase::Done(ok), ..run };
        assert(levels_ok(job, run2, false));
    } else {
        let n = run.levels.len() - 1;
        let f = run.levels.last();
        assert(level_ok(job, run, true, n));
        if cancel {
            lemma_close(job, run, true);
            if n > 0 {
                assert(level_ok(job, closed_top(run), true, n - 1));
            }
            lemma_back(job, closed_top(run), false, cancel);
        } else {
            let g = Level { clear: f.clear && ok, ..f };
            let run2 = Run { levels: run.levels.drop_last().push(g), ..run };
            let all = inside(job, f.id as int);
            assert forall|i: int| 0 <= i < run2.levels.len() implies #[trigger] level_ok(
                job,
                run2,
                false,
                i,
            ) by {
                assert(level_ok(job, run, true, i));
                if i < n {
                    assert(run2.levels[i] == run.levels[i]);
                } else {
                    assert forall|j: int| g.clear && 0 <= j < g.next implies cleared(
                        job,
                        run2.gone,
                        #[trigger] all[j],
                    ) by {
                        if j < f.next - 1 {
                            assert(cleared(job, run.gone, all[j]));
                        }
                    }
                }
                if i > 0 {
                    assert(run2.levels[i - 1] == run.levels[i - 1]);
                }
            }
            lemma_resume(job, run2, cancel);
        }
    }
}

#[verifier::spinoff_prover]
#[verifier::rlimit(60)]
proof fn lemma_resume(job: Job, run: Run, cancel: bool)
    requires
        job_ok(job),
        levels_ok(job, run, false),
        run.levels.len() > 0,
    ensures
        orderly(job, resume(job, run, cancel)),
    decreases run.levels.len(), left(job, run), 0nat,
{
    let n = run.levels.len() - 1;
    let f = run.levels.last();
    let all = inside(job, f.id as int);
    assert(level_ok(job, run, false, n));
    if f.next < all.len() {
        let g = Level { next: f.next + 1, ..f };
        let run2 = Run { levels: run.levels.drop_last().push(g), ..run };
        assert forall|i: int| 0 <= i < run2.levels.len() implies #[trigger] level_ok(
            job,
            run2,
            true,
            i,
        ) by {
            assert(level_ok(job, run, false, i));
            if i < n {
                assert(run2.levels[i] == run.levels[i]);
            }
            if i > 0 {
                assert(run2.levels[i - 1] == run.levels[i - 1]);
            }
        }
        assert(untouched(job, run.gone, all[f.next as int]));
        lemma_visit(job, run2, all[f.next as int], cancel);
    } else {
        lemma_close(job, run, false);
        let run2 = closed_top(run);
        if n > 0 {
            assert(level_ok(job, run2, true, n - 1));
        }
        if !job.marks[f.id as int] {
            if f.clear {
                assert forall|j: int| 0 <= j < all.len() implies cleared(
                    job,
                    run.gone,
                    #[trigger] all[j],
                ) by {}
                lemma_cleared_up(job, run.gone, f.id);
            }
            lemma_back(job, run2, f.clear, cancel);
        } else if !f.clear {
            let run3 = gave_up(
                job,
                run2,
                f.id,
                "kept directory because a reviewed child was not removed"@,
            );
            lemma_levels_same(job, run2, run3, true);
            lemma_back(job, run3, false, cancel);
        } else {
            lemma_levels_same(job, run, Run { phase: Phase::Unlinking, ..run }, false);
        }
    }
}

/// Unlinking the innermost object touches nothing that is still to be taken up.
proof fn lemma_unlink(job: Job, run: Run)
    requires
        job_ok(job),
        levels_ok(job, run, false),
        run.levels.len() > 0,
        job.marks[run.levels.last().id as int],
    ensures
        levels_ok(
            job,
            closed_top(Run { gone: run.gone.insert(run.levels.last().id), ..run }),
            true,
        ),
{
    let n = run.levels.len() - 1;
    let id = run.levels.last().id;
    let gone2 = run.gone.insert(id);
    let run2 = closed_top(Run { gone: gone2, ..run });
    lemma_close(job, run, false);
    assert(level_ok(job, run, false, n));
    let rank = choose|rank: Seq<nat>| tree::ranked(job.nodes, rank);
    assert forall|i: int| 0 <= i < run2.levels.len() implies #[trigger] level_ok(
        job,
        run2,
        true,
        i,
    ) by {
        assert(level_ok(job, closed_top(run), true, i));
        let f = run.levels[i];
        assert(run2.levels[i] == f);
        let all = inside(job, f.id as int);
        lemma_on_path(job, run, i, n);
        let via = all[f.next - 1];
        lemma_inside_kids(job, f.id as int);
        if i > 0 {
            assert(run2.levels[i - 1] == run.levels[i - 1]);
        }
        assert forall|j: int| f.next <= j < all.len() implies untouched(
            job,
            gone2,
            #[trigger] all[j],
        ) by {
            assert(untouched(job, run.gone, all[j]));
            lemma_met(job, all[j]);
            assert forall|q: u32| #[trigger] met(job, all[j]).contains(q) implies !gone2.contains(q) by {
                if q == id {
                    assert(all[j] != via);
                    walk::lemma_kids_apart(job.nodes, all[j] as int, via as int, id as int);
                }
            }
        }
        assert forall|j: int|
            f.clear && 0 <= j < done_kids(run2.levels, true, i) implies cleared(
            job,
            gone2,
            #[trigger] all[j],
        ) by {
            assert(cleared(job, run.gone, all[j]));
        }
        assert(f.id != id) by {
            assert(rank[via as int] < rank[job.nodes[via as int].parent as int]);
            walk::lemma_under_rank(job.nodes, rank, via as int, id as int);
        }
    }
}

/// Every open object lies on the way to the innermost one.
proof fn lemma_on_path(job: Job, run: Run, i: int, n: int)
    requires
        job_ok(job),
        levels_ok(job, run, false),
        n == run.levels.len() - 1,
        0 <= i < n,
    ensures
        1 <= run.levels[i].next <= inside(job, run.levels[i].id as int).len(),
        walk::under(
            job.nodes,
            inside(job, run.levels[i].id as int)[run.levels[i].next - 1] as int,
            run.levels[n].id as int,
        ),
    decreases n - i,
{
    assert(level_ok(job, run, false, i));
    assert(level_ok(job, run, false, i + 1));
    let via = inside(job, run.levels[i].id as int)[run.levels[i].next - 1];
    assert(run.levels[i + 1].id == via);
    walk::lemma_under_self(job.nodes, via as int);
    if i + 1 < n {
        lemma_on_path(job, run, i + 1, n);
        let deeper = inside(job, via as int)[run.levels[i + 1].next - 1];
        lemma_inside_kids(job, via as int);
        walk::lemma_under_trans(
            job.nodes,
            via as int,
            deeper as int,
            run.levels[n].id as int,
        );
    }
}

/// A fresh machine is in order.
pub proof fn law_start_is_orderly(job: Job, run: Run)
    requires
        run.levels.len() == 0,
        run.phase == Phase::Start,
        run.gone =~= Set::<u32>::empty(),
    ensures
        orderly(job, run),
{
}

/// Whatever is reported, the machine stays in order.
pub proof fn law_steps_keep_order(job: Job, run: Run, report: ReportV, cancel: bool)
    requires
        job_ok(job),
        orderly(job, run),
    ensures
        orderly(job, after(job, run, report, cancel)),
{
    if run.levels.len() > 0 {
        let n = run.levels.len() - 1;
        if run.phase is Unlinking {
            assert(level_ok(job, run, false, n));
        } else {
            assert(level_ok(job, run, true, n));
        }
    }
    match (run.phase, report) {
        (Phase::Start, ReportV::Begin) => {
            assert(levels_ok(job, run, true));
            assert(untouched(job, run.gone, 0));
            lemma_visit(job, run, 0, cancel);
        },
        (Phase::Opening { id, tries }, ReportV::Opened(actual)) => {
            match review_fault(reviewed_of(job.nodes[id as int]), actual) {
                None => {
                    let f = Level { id, next: 0, clear: true };
                    let run2 = Run { levels: run.levels.push(f), ..run };
                    let n = run.levels.len() as int;
                    if n > 0 {
                        lemma_inside_kids(job, run.levels[n - 1].id as int);
                    }
                    lemma_inside_kids(job, id as int);
                    lemma_met(job, id);
                    assert forall|i: int| 0 <= i < run2.levels.len() implies #[trigger] level_ok(
                        job,
                        run2,
                        false,
                        i,
                    ) by {
                        if i < n {
                            assert(level_ok(job, run, true, i));
                            assert(run2.levels[i] == run.levels[i]);
                            if i > 0 {
                                assert(run2.levels[i - 1] == run.levels[i - 1]);
                            }
                        } else {
                            assert(run2.levels[i] == f);
                            if i > 0 {
                                assert(run2.levels[i - 1] == run.levels[i - 1]);
                            }
                            let all = inside(job, id as int);
                            assert forall|j: int| 0 <= j < all.len() implies untouched(
                                job,
                                run.gone,
                                #[trigger] all[j],
                            ) by {
                                assert forall|q: u32| #[trigger] met(job, all[j]).contains(q) implies !run.gone.contains(
                                q) by {
                                    lemma_met_up(job, id, j, q);
                                }
                            }
                        }
                    }
                    lemma_resume(job, run2, cancel);
                },
                Some(fault) => {
                    let run2 = gave_up(job, run, id, fault.text());
                    lemma_levels_same(job, run, run2, true);
                    lemma_back(job, run2, false, cancel);
                },
            }
        },
        (Phase::Opening { id, tries }, ReportV::Occupied) => {
            lemma_levels_same(job, run, Run { phase: Phase::Asking { id, tries }, ..run }, true);
        },
        (Phase::Opening { id, tries }, ReportV::Failed(why)) => {
            let run2 = gave_up(job, run, id, why);
            lemma_levels_same(job, run, run2, true);
            lemma_back(job, run2, false, cancel);
        },
        (Phase::Asking { id, tries }, ReportV::Retry) => {
            if tries + 1 < ATTEMPTS {
                lemma_levels_same(
                    job,
                    run,
                    Run { phase: Phase::Opening { id, tries: (tries + 1) as u8 }, ..run },
                    true,
                );
            } else {
                let run2 = gave_up(
                    job,
                    run,
                    id,
                    "still occupied after three user-directed attempts"@,
                );
                lemma_levels_same(job, run, run2, true);
                lemma_back(job, run2, false, cancel);
            }
        },
        (Phase::Asking { id, tries }, ReportV::Skip) => {
            let run2 = gave_up(job, run, id, "skipped occupied item"@);
            lemma_levels_same(job, run, run2, true);
            lemma_back(job, run2, false, cancel);
        },
        (Phase::Asking { id, tries }, ReportV::Failed(why)) => {
            let run2 = gave_up(job, run, id, why);
            lemma_levels_same(job, run, run2, true);
            lemma_back(job, run2, false, cancel);
        },
        (Phase::Unlinking, ReportV::Unlinked) => {
            let f = run.levels.last();
            let id = f.id;
            let n = job.nodes[id as int];
            let gone2 = run.gone.insert(id);
            let run2 = closed_top(
                Run {
                    processed: bumped(run.processed),
                    removed: bumped(run.removed),
                    bytes: if n.dir() {
                        run.bytes
                    } else {
                        added(run.bytes, n.allocated)
                    },
                    gone: gone2,
                    ..run
                },
            );
            lemma_unlink(job, run);
            lemma_close(job, run, false);
            lemma_levels_same(job, closed_top(Run { gone: gone2, ..run }), run2, true);
            let all = inside(job, id as int);
            assert forall|j: int| 0 <= j < all.len() implies cleared(
                job,
                gone2,
                #[trigger] all[j],
            ) by {
                assert(cleared(job, run.gone, all[j]));
            }
            lemma_cleared_up(job, gone2, id);
            if run2.levels.len() > 0 {
                assert(level_ok(job, run2, true, run2.levels.len() - 1));
            }
            lemma_back(job, run2, true, cancel);
        },
        (Phase::Unlinking, ReportV::Failed(why)) => {
            let run1 = gave_up(job, run, run.levels.last().id, why);
            lemma_levels_same(job, run, run1, false);
            lemma_close(job, run1, false);
            let run2 = closed_top(run1);
            if run2.levels.len() > 0 {
                assert(level_ok(job, run2, true, run2.levels.len() - 1));
            }
            lemma_back(job, run2, false, cancel);
        },
        _ => {},
    }
}

/// What is met inside a child is met inside its parent.
proof fn lemma_met_up(job: Job, id: u32, c: int, q: u32)
    requires
        job_ok(job),
        id < job.nodes.len(),
        0 <= c < inside(job, id as int).len(),
        met(job, inside(job, id as int)[c]).contains(q),
    ensures
        met(job, id).contains(q),
{
    walk::lemma_order_unfold(job.nodes, enterable(job), id);
    let ids = inside(job, id as int);
    lemma_orders_hold(job, ids, c, q);
    let below = walk::orders(job.nodes, enterable(job), ids);
    let w = below.index_of(q);
    assert(met(job, id)[w + 1] == q);
}

proof fn lemma_orders_hold(job: Job, ids: Seq<u32>, c: int, q: u32)
    requires
        0 <= c < ids.len(),
        met(job, ids[c]).contains(q),
    ensures
        walk::orders(job.nodes, enterable(job), ids).contains(q),
    decreases ids.len(),
{
    let all = walk::orders(job.nodes, enterable(job), ids);
    let top = met(job, ids.last());
    let rest = walk::orders(job.nodes, enterable(job), ids.drop_last());
    assert(all == top + rest);
    if c == ids.len() - 1 {
        let w = top.index_of(q);
        assert(all[w] == q);
    } else {
        assert(ids.drop_last()[c] == ids[c]);
        lemma_orders_hold(job, ids.drop_last(), c, q);
        let w = rest.index_of(q);
        assert(all[top.len() + w] == q);
    }
}

/// An object is unlinked only if it was selected, is still there, and everything
/// selected below it is gone.
pub proof fn law_unlink_comes_last(job: Job, run: Run)
    requires
        job_ok(job),
        orderly(job, run),
        run.phase is Unlinking,
    ensures
        ({
            let id = run.levels.last().id;
            &&& asked(job, run) == Action::Unlink { id }
            &&& job.marks[id as int]
            &&& !run.gone.contains(id)
            &&& forall|j: u32|
                #[trigger] met(job, id).contains(j) && j != id && job.marks[j as int]
                    ==> run.gone.contains(j)
        }),
{
    let f = run.levels.last();
    assert(level_ok(job, run, false, run.levels.len() - 1));
    lemma_met(job, f.id);
    let all = inside(job, f.id as int);
    assert forall|j: u32|
        #[trigger] met(job, f.id).contains(j) && j != f.id && job.marks[j as int] implies run.gone.contains(
        j,
    ) by {
        let c = choose|c: int| 0 <= c < all.len() && met(job, all[c]).contains(j);
        assert(cleared(job, run.gone, all[c]));
    }
}

/// Only selected objects ever go, and only objects on the way to something selected are
/// opened.
pub proof fn law_only_selected_goes(job: Job, run: Run, g: u32)
    requires
        job_ok(job),
        orderly(job, run),
    ensures
        run.gone.contains(g) ==> g < job.nodes.len() && job.marks[g as int],
        asked(job, run) matches Action::Open { id, delete_this } ==> delete_this
            == job.marks[id as int] && job.sums[id as int].items() > 0,
{
}

/// A run that ends well has removed everything selected that it could meet.
pub proof fn law_success_means_gone(job: Job, run: Run)
    requires
        job_ok(job),
        orderly(job, run),
        run.phase == Phase::Done(true),
    ensures
        forall|j: u32| #[trigger] met(job, 0).contains(j) && job.marks[j as int] ==> run.gone.contains(j),
{
}

/// Nothing new is held open, nothing goes, and no failure is forgotten.
pub open spec fn stays_within(run: Run, next: Run) -> bool {
    &&& next.levels.len() <= run.levels.len()
    &&& forall|i: int| 0 <= i < next.levels.len() ==> (#[trigger] next.levels[i]).id == run.levels[i].id
    &&& next.gone == run.gone
    &&& next.failed >= run.failed
    &&& next.errors.len() >= run.errors.len()
    &&& forall|i: int| 0 <= i < run.errors.len() ==> #[trigger] next.errors[i] == run.errors[i]
}

proof fn lemma_stays(a: Run, b: Run, c: Run)
    requires
        stays_within(a, b),
        stays_within(b, c),
    ensures
        stays_within(a, c),
{
}

proof fn lemma_visit_stays(job: Job, run: Run, id: u32, cancel: bool)
    ensures
        stays_within(run, visit(job, run, id, cancel)),
    decreases run.levels.len(), left(job, run), 2nat,
{
    if job.sums[id as int].items() == 0 {
        lemma_back_stays(job, run, true, cancel);
    } else if cancel {
        lemma_back_stays(job, run, false, cancel);
    } else if run.levels.len() > MAX_DEPTH {
        let noted = noted(
            run,
            path_text(job, id),
            "directory nesting exceeds safe deletion depth"@,
        );
        lemma_back_stays(job, noted, false, cancel);
        lemma_stays(run, noted, visit(job, run, id, cancel));
    }
}

proof fn lemma_back_stays(job: Job, run: Run, ok: bool, cancel: bool)
    ensures
        stays_within(run, back(job, run, ok, cancel)),
    decreases run.levels.len(), left(job, run), 1nat,
{
    if run.levels.len() > 0 {
        let f = run.levels.last();
        if cancel {
            lemma_back_stays(job, closed_top(run), false, cancel);
            lemma_stays(run, closed_top(run), back(job, run, ok, cancel));
        } else {
            let told = Run {
                levels: run.levels.drop_last().push(Level { clear: f.clear && ok, ..f }),
                ..run
            };
            lemma_resume_stays(job, told, cancel);
            lemma_stays(run, told, back(job, run, ok, cancel));
        }
    }
}

proof fn lemma_resume_stays(job: Job, run: Run, cancel: bool)
    ensures
        stays_within(run, resume(job, run, cancel)),
    decreases run.levels.len(), left(job, run), 0nat,
{
    if run.levels.len() > 0 {
        let f = run.levels.last();
        let all = inside(job, f.id as int);
        let done = resume(job, run, cancel);
        if f.next < all.len() {
            let further = Run {
                levels: run.levels.drop_last().push(Level { next: f.next + 1, ..f }),
                ..run
            };
            lemma_visit_stays(job, further, all[f.next as int], cancel);
            lemma_stays(run, further, done);
        } else if !job.marks[f.id as int] {
            lemma_back_stays(job, closed_top(run), f.clear, cancel);
            lemma_stays(run, closed_top(run), done);
        } else if !f.clear {
            let kept = gave_up(
                job,
                closed_top(run),
                f.id,
                "kept directory because a reviewed child was not removed"@,
            );
            lemma_back_stays(job, kept, false, cancel);
            lemma_stays(run, kept, done);
        }
    }
}

/// An object that is not as it was reviewed is left alone: it is not held open, nothing
/// goes, and the failure is counted and told under its path.
pub proof fn law_changed_objects_are_kept(
    job: Job,
    run: Run,
    id: u32,
    tries: u8,
    actual: Identity,
    cancel: bool,
)
    requires
        run.phase == (Phase::Opening { id, tries }),
        review_fault(reviewed_of(job.nodes[id as int]), actual) is Some,
    ensures
        ({
            let next = after(job, run, ReportV::Opened(actual), cancel);
            let fault = review_fault(reviewed_of(job.nodes[id as int]), actual)->Some_0;
            &&& stays_within(run, next)
            &&& next.failed >= bumped(run.failed)
            &&& run.errors.len() < MAX_ERRORS ==> next.errors.len() > run.errors.len()
                && next.errors[run.errors.len() as int] == path_text(job, id) + ": "@
                + fault.text()
        }),
{
    let fault = review_fault(reviewed_of(job.nodes[id as int]), actual)->Some_0;
    let told = gave_up(job, run, id, fault.text());
    lemma_back_stays(job, told, false, cancel);
    lemma_stays(run, told, back(job, told, false, cancel));
    if run.errors.len() < MAX_ERRORS {
        let n = run.errors.len() as int;
        assert(told.errors[n] == path_text(job, id) + ": "@ + fault.text());
        assert(back(job, told, false, cancel).errors[n] == told.errors[n]);
    }
}

/// Only an object that was opened and found as reviewed is held open, and only the
/// innermost object held open ever goes.
pub proof fn law_only_checked_objects_go(job: Job, run: Run, report: ReportV, cancel: bool)
    requires
        run.phase is Unlinking ==> run.levels.len() > 0,
    ensures
        ({
            let next = after(job, run, report, cancel);
            &&& next.levels.len() > run.levels.len() ==> ({
                &&& run.phase is Opening
                &&& report is Opened
                &&& next.levels.len() == run.levels.len() + 1
                &&& next.levels.last().id == run.phase->Opening_id
                &&& review_fault(
                    reviewed_of(job.nodes[run.phase->Opening_id as int]),
                    report->Opened_0,
                ) is None
            })
            &&& forall|i: int|
                0 <= i < next.levels.len() && i < run.levels.len() ==> (#[trigger] next.levels[i]).id
                    == run.levels[i].id
            &&& next.gone == run.gone || run.phase is Unlinking && report is Unlinked && next.gone
                == run.gone.insert(run.levels.last().id)
        }),
{
    let next = after(job, run, report, cancel);
    match (run.phase, report) {
        (Phase::Start, ReportV::Begin) => {
            lemma_visit_stays(job, run, 0, cancel);
        },
        (Phase::Opening { id, tries }, ReportV::Opened(actual)) => {
            match review_fault(reviewed_of(job.nodes[id as int]), actual) {
                None => {
                    let open = Run {
                        levels: run.levels.push(Level { id, next: 0, clear: true }),
                        ..run
                    };
                    lemma_resume_stays(job, open, cancel);
                    assert(forall|i: int| 0 <= i < run.levels.len() ==> open.levels[i] == run.levels[i]);
                },
                Some(f) => {
                    law_changed_objects_are_kept(job, run, id, tries, actual, cancel);
                },
            }
        },
        (Phase::Opening { id, tries }, ReportV::Failed(why)) => {
            lemma_back_stays(job, gave_up(job, run, id, why), false, cancel);
        },
        (Phase::Asking { id, tries }, ReportV::Retry) => {
            lemma_back_stays(
                job,
                gave_up(job, run, id, "still occupied after three user-directed attempts"@),
                false,
                cancel,
            );
        },
        (Phase::Asking { id, tries }, ReportV::Skip) => {
            lemma_back_stays(job, gave_up(job, run, id, "skipped occupied item"@), false, cancel);
        },
        (Phase::Asking { id, tries }, ReportV::Failed(why)) => {
            lemma_back_stays(job, gave_up(job, run, id, why), false, cancel);
        },
        (Phase::Unlinking, ReportV::Unlinked) => {
            let id = run.levels.last().id;
            let n = job.nodes[id as int];
            let gone = closed_top(
                Run {
                    processed: bumped(run.processed),
                    removed: bumped(run.removed),
                    bytes: if n.dir() {
                        run.bytes
                    } else {
                        added(run.bytes, n.allocated)
                    },
                    gone: run.gone.insert(id),
                    ..run
                },
            );
            lemma_back_stays(job, gone, true, cancel);
        },
        (Phase::Unlinking, ReportV::Failed(why)) => {
            let kept = closed_top(gave_up(job, run, run.levels.last().id, why));
            lemma_back_stays(job, kept, false, cancel);
        },
        _ => {},
    }
}

/// Once cancelled, nothing more is opened unless the user asks for another try.
pub proof fn law_cancel_opens_nothing(job: Job, run: Run, report: ReportV)
    ensures
        after(job, run, report, true).phase is Opening ==> report is Retry || after(
            job,
            run,
            report,
            true,
        ) == run,
{
    match (run.phase, report) {
        (Phase::Start, ReportV::Begin) => {
            lemma_cancel_back(job, run, true);
            lemma_cancel_back(job, run, false);
        },
        (Phase::Opening { id, tries }, ReportV::Opened(actual)) => {
            match review_fault(reviewed_of(job.nodes[id as int]), actual) {
                None => {
                    lemma_cancel_resume(
                        job,
                        Run { levels: run.levels.push(Level { id, next: 0, clear: true }), ..run },
                    );
                },
                Some(f) => {
                    lemma_cancel_back(job, gave_up(job, run, id, f.text()), false);
                },
            }
        },
        (Phase::Opening { id, tries }, ReportV::Failed(why)) => {
            lemma_cancel_back(job, gave_up(job, run, id, why), false);
        },
        (Phase::Asking { id, tries }, ReportV::Skip) => {
            lemma_cancel_back(job, gave_up(job, run, id, "skipped occupied item"@), false);
        },
        (Phase::Asking { id, tries }, ReportV::Failed(why)) => {
            lemma_cancel_back(job, gave_up(job, run, id, why), false);
        },
        (Phase::Unlinking, ReportV::Unlinked) => {
            let id = run.levels.last().id;
            let n = job.nodes[id as int];
            lemma_cancel_back(
                job,
                closed_top(
                    Run {
                        processed: bumped(run.processed),
                        removed: bumped(run.removed),
                        bytes: if n.dir() {
                            run.bytes
                        } else {
                            added(run.bytes, n.allocated)
                        },
                        gone: run.gone.insert(id),
                        ..run
                    },
                ),
                true,
            );
        },
        (Phase::Unlinking, ReportV::Failed(why)) => {
            lemma_cancel_back(
                job,
                closed_top(gave_up(job, run, run.levels.last().id, why)),
                false,
            );
        },
        _ => {},
    }
}

proof fn lemma_cancel_back(job: Job, run: Run, ok: bool)
    ensures
        back(job, run, ok, true).phase is Done,
    decreases run.levels.len(),
{
    if run.levels.len() > 0 {
        lemma_cancel_back(job, closed_top(run), false);
    }
}

proof fn lemma_cancel_resume(job: Job, run: Run)
    requires
        run.levels.len() > 0,
    ensures
        !(resume(job, run, true).phase is Opening),
{
    let f = run.levels.last();
    let all = inside(job, f.id as int);
    if f.next < all.len() {
        let run2 = Run {
            levels: run.levels.drop_last().push(Level { next: f.next + 1, ..f }),
            ..run
        };
        lemma_cancel_back(job, run2, true);
        lemma_cancel_back(job, run2, false);
    } else {
        lemma_cancel_back(job, closed_top(run), f.clear);
        lemma_cancel_back(
            job,
            gave_up(
                job,
                closed_top(run),
                f.id,
                "kept directory because a reviewed child was not removed"@,
            ),
            false,
        );
    }
}

/// The figures of a run agree: nothing was removed without being processed, and of every
/// failure, up to a hundred of them, there is a text.
pub open spec fn counts_agree(run: Run) -> bool {
    &&& run.removed <= run.processed
    &&& run.errors.len() == (if run.failed < MAX_ERRORS {
        run.failed as int
    } else {
        MAX_ERRORS as int
    })
}

/// Since `base` failures were counted, one more was wherever something is not clear.
pub open spec fn accounted(run: Run, base: u64) -> bool {
    &&& run.failed >= base
    &&& run.phase == Phase::Done(false) ==> run.failed > base
    &&& forall|i: int|
        0 <= i < run.levels.len() ==> (#[trigger] run.levels[i]).clear || run.failed > base
}

proof fn lemma_visit_counts(job: Job, run: Run, id: u32, cancel: bool, base: u64)
    requires
        counts_agree(run),
    ensures
        counts_agree(visit(job, run, id, cancel)),
        accounted(run, base) && !cancel && base < u64::MAX ==> accounted(
            visit(job, run, id, cancel),
            base,
        ),
    decreases run.levels.len(), left(job, run), 2nat,
{
    if job.sums[id as int].items() == 0 {
        lemma_back_counts(job, run, true, cancel, base);
    } else if cancel {
        lemma_back_counts(job, run, false, cancel, base);
    } else if run.levels.len() > MAX_DEPTH {
        let told = noted(
            run,
            path_text(job, id),
            "directory nesting exceeds safe deletion depth"@,
        );
        lemma_back_counts(job, told, false, cancel, base);
    }
}

proof fn lemma_back_counts(job: Job, run: Run, ok: bool, cancel: bool, base: u64)
    requires
        counts_agree(run),
    ensures
        counts_agree(back(job, run, ok, cancel)),
        accounted(run, base) && !cancel && base < u64::MAX && (ok || run.failed > base)
            ==> accounted(back(job, run, ok, cancel), base),
    decreases run.levels.len(), left(job, run), 1nat,
{
    if run.levels.len() > 0 {
        let f = run.levels.last();
        if cancel {
            lemma_back_counts(job, closed_top(run), false, cancel, base);
        } else {
            let told = Run {
                levels: run.levels.drop_last().push(Level { clear: f.clear && ok, ..f }),
                ..run
            };
            assert(run.levels[run.levels.len() - 1] == f);
            lemma_resume_counts(job, told, cancel, base);
        }
    }
}

proof fn lemma_resume_counts(job: Job, run: Run, cancel: bool, base: u64)
    requires
        counts_agree(run),
    ensures
        counts_agree(resume(job, run, cancel)),
        accounted(run, base) && !cancel && base < u64::MAX ==> accounted(
            resume(job, run, cancel),
            base,
        ),
    decreases run.levels.len(), left(job, run), 0nat,
{
    if run.levels.len() > 0 {
        let f = run.levels.last();
        let all = inside(job, f.id as int);
        assert(run.levels[run.levels.len() - 1] == f);
        if f.next < all.len() {
            let further = Run {
                levels: run.levels.drop_last().push(Level { next: f.next + 1, ..f }),
                ..run
            };
            lemma_visit_counts(job, further, all[f.next as int], cancel, base);
        } else if !job.marks[f.id as int] {
            lemma_back_counts(job, closed_top(run), f.clear, cancel, base);
        } else if !f.clear {
            let kept = gave_up(
                job,
                closed_top(run),
                f.id,
                "kept directory because a reviewed child was not removed"@,
            );
            lemma_back_counts(job, kept, false, cancel, base);
        }
    }
}

proof fn lemma_after_counts(job: Job, run: Run, report: ReportV, cancel: bool, base: u64)
    requires
        counts_agree(run),
        run.phase == Phase::Unlinking ==> run.levels.len() > 0,
    ensures
        counts_agree(after(job, run, report, cancel)),
        accounted(run, base) && !cancel && base < u64::MAX ==> accounted(
            after(job, run, report, cancel),
            base,
        ),
{
    match (run.phase, report) {
        (Phase::Start, ReportV::Begin) => {
            lemma_visit_counts(job, run, 0, cancel, base);
        },
        (Phase::Opening { id, tries }, ReportV::Opened(actual)) => {
            match review_fault(reviewed_of(job.nodes[id as int]), actual) {
                None => {
                    lemma_resume_counts(
                        job,
                        Run { levels: run.levels.push(Level { id, next: 0, clear: true }), ..run },
                        cancel,
                        base,
                    );
                },
                Some(f) => {
                    lemma_back_counts(job, gave_up(job, run, id, f.text()), false, cancel, base);
                },
            }
        },
        (Phase::Opening { id, tries }, ReportV::Failed(why)) => {
            lemma_back_counts(job, gave_up(job, run, id, why), false, cancel, base);
        },
        (Phase::Asking { id, tries }, ReportV::Retry) => {
            lemma_back_counts(
                job,
                gave_up(job, run, id, "still occupied after three user-directed attempts"@),
                false,
                cancel,
                base,
            );
        },
        (Phase::Asking { id, tries }, ReportV::Skip) => {
            lemma_back_counts(
                job,
                gave_up(job, run, id, "skipped occupied item"@),
                false,
                cancel,
                base,
            );
        },
        (Phase::Asking { id, tries }, ReportV::Failed(why)) => {
            lemma_back_counts(job, gave_up(job, run, id, why), false, cancel, base);
        },
        (Phase::Unlinking, ReportV::Unlinked) => {
            let id = run.levels.last().id;
            let n = job.nodes[id as int];
            let gone = closed_top(
                Run {
                    processed: bumped(run.processed),
                    removed: bumped(run.removed),
                    bytes: if n.dir() {
                        run.bytes
                    } else {
                        added(run.bytes, n.allocated)
                    },
                    gone: run.gone.insert(id),
                    ..run
                },
            );
            lemma_back_counts(job, gone, true, cancel, base);
        },
        (Phase::Unlinking, ReportV::Failed(why)) => {
            let kept = closed_top(gave_up(job, run, run.levels.last().id, why));
            lemma_back_counts(job, kept, false, cancel, base);
        },
        _ => {},
    }
}

/// Whatever is reported, the figures of a run keep agreeing: removed objects were processed,
/// and the texts number the failures, up to a hundred. A new run starts with agreeing
/// figures, and noting a failure keeps them so.
pub proof fn law_counts_agree(job: Job, run: Run, report: ReportV, cancel: bool)
    requires
        job_ok(job),
        orderly(job, run),
        counts_agree(run),
    ensures
        counts_agree(after(job, run, report, cancel)),
        forall|path: Seq<char>, why: Seq<char>| counts_agree(#[trigger] noted(run, path, why)),
        counts_agree(
            Run {
                levels: Seq::empty(),
                phase: Phase::Start,
                processed: 0,
                removed: 0,
                failed: 0,
                bytes: 0,
                errors: Seq::empty(),
                gone: Set::empty(),
            },
        ),
{
    lemma_after_counts(job, run, report, cancel, 0);
}

/// A selection that did not go as a whole, with nobody asking to stop, has counted a
/// failure since it was begun: this holds of its start, every report keeps it, and it says
/// so of its end.
pub proof fn law_failed_runs_count_a_failure(job: Job, run: Run, report: ReportV, base: u64)
    requires
        job_ok(job),
        orderly(job, run),
        counts_agree(run),
        base < u64::MAX,
    ensures
        run.levels.len() == 0 && run.phase == Phase::Start ==> accounted(run, run.failed),
        accounted(run, base) ==> accounted(after(job, run, report, false), base),
        accounted(run, base) && asked(job, run) == (Action::Finish { all_gone: false }) && run.phase
            != Phase::Start ==> run.failed > base,
{
    lemma_after_counts(job, run, report, false, base);
}

/// An object is taken for the reviewed one exactly if it is of the same kind and, unless it
/// is a directory, as long as then and last written when it was then, as far as that is
/// known.
pub proof fn law_only_the_reviewed_object_passes(r: ReviewedNode, actual: Identity)
    ensures
        review_fault(r, actual) is None <==> {
            &&& (actual.attributes & 0x10 != 0) == r.is_dir
            &&& (actual.attributes & 0x400 != 0) == r.is_reparse
            &&& !r.is_dir ==> actual.length == r.length
            &&& !r.is_dir && r.modified != i64::MIN ==> actual.modified > 0 && actual.modified as int
                / 10_000 - 11_644_473_600_000 == r.modified
        },
        review_fault(r, actual) == Some(ReviewFault::TypeChanged) <==> (actual.attributes & 0x10
            != 0) != r.is_dir || (actual.attributes & 0x400 != 0) != r.is_reparse,
        review_fault(r, actual) == Some(ReviewFault::SizeChanged) ==> actual.length != r.length,
        review_fault(r, actual) == Some(ReviewFault::TimeChanged) ==> actual.length == r.length
            && r.modified != i64::MIN,
{
}

/// What is reviewed of a node is what the scan found of it.
pub proof fn law_the_scan_is_what_is_reviewed(n: Node)
    ensures
        reviewed_of(n).length == n.logical,
        reviewed_of(n).allocated == n.allocated,
        reviewed_of(n).modified == n.oldest_modified_ms,
        reviewed_of(n).is_dir == (n.flags & 1 != 0),
        reviewed_of(n).is_reparse == (n.flags & 2 != 0),
{
}

/// What was taken away so far is the same in both.
spec fn same_take(a: Run, b: Run) -> bool {
    a.removed == b.removed && a.bytes == b.bytes && a.gone == b.gone
}

proof fn lemma_visit_takes(job: Job, run: Run, id: u32, cancel: bool)
    ensures
        same_take(run, visit(job, run, id, cancel)),
        !cancel && visit(job, run, id, cancel).phase is Opening ==> visit(
            job,
            run,
            id,
            cancel,
        ).phase->Opening_tries == 0,
    decreases run.levels.len(), left(job, run), 2nat,
{
    if job.sums[id as int].items() == 0 {
        lemma_back_takes(job, run, true, cancel);
    } else if cancel {
        lemma_back_takes(job, run, false, cancel);
    } else if run.levels.len() > MAX_DEPTH {
        lemma_back_takes(
            job,
            noted(run, path_text(job, id), "directory nesting exceeds safe deletion depth"@),
            false,
            cancel,
        );
    }
}

proof fn lemma_back_takes(job: Job, run: Run, ok: bool, cancel: bool)
    ensures
        same_take(run, back(job, run, ok, cancel)),
        !cancel && back(job, run, ok, cancel).phase is Opening ==> back(
            job,
            run,
            ok,
            cancel,
        ).phase->Opening_tries == 0,
    decreases run.levels.len(), left(job, run), 1nat,
{
    if run.levels.len() > 0 {
        let f = run.levels.last();
        if cancel {
            lemma_back_takes(job, closed_top(run), false, cancel);
        } else {
            let told = Run {
                levels: run.levels.drop_last().push(Level { clear: f.clear && ok, ..f }),
                ..run
            };
            lemma_resume_takes(job, told, cancel);
        }
    }
}

proof fn lemma_resume_takes(job: Job, run: Run, cancel: bool)
    ensures
        same_take(run, resume(job, run, cancel)),
        !cancel && run.levels.len() > 0 && resume(job, run, cancel).phase is Opening ==> resume(
            job,
            run,
            cancel,
        ).phase->Opening_tries == 0,
    decreases run.levels.len(), left(job, run), 0nat,
{
    if run.levels.len() > 0 {
        let f = run.levels.last();
        let all = inside(job, f.id as int);
        if f.next < all.len() {
            let further = Run {
                levels: run.levels.drop_last().push(Level { next: f.next + 1, ..f }),
                ..run
            };
            lemma_visit_takes(job, further, all[f.next as int], cancel);
        } else if !job.marks[f.id as int] {
            lemma_back_takes(job, closed_top(run), f.clear, cancel);
        } else if !f.clear {
            let kept = gave_up(
                job,
                closed_top(run),
                f.id,
                "kept directory because a reviewed child was not removed"@,
            );
            lemma_back_takes(job, kept, false, cancel);
        }
    }
}

/// Only what was unlinked counts as removed: one object more, and of a file the space that
/// the review found. Nothing else changes what was taken.
pub proof fn law_only_unlinked_objects_count(job: Job, run: Run, report: ReportV, cancel: bool)
    ensures
        ({
            let next = after(job, run, report, cancel);
            let unlinked = run.phase is Unlinking && report is Unlinked;
            let n = job.nodes[run.levels.last().id as int];
            &&& !unlinked ==> next.removed == run.removed && next.bytes == run.bytes && next.gone
                == run.gone
            &&& unlinked && run.removed < u64::MAX ==> next.removed == run.removed + 1
            &&& unlinked && n.flags & 1 != 0 ==> next.bytes == run.bytes
            &&& unlinked && n.flags & 1 == 0 && run.bytes + n.allocated <= u64::MAX ==> next.bytes
                == run.bytes + n.allocated
        }),
{
    match (run.phase, report) {
        (Phase::Start, ReportV::Begin) => {
            lemma_visit_takes(job, run, 0, cancel);
        },
        (Phase::Opening { id, tries }, ReportV::Opened(actual)) => {
            match review_fault(reviewed_of(job.nodes[id as int]), actual) {
                None => {
                    lemma_resume_takes(
                        job,
                        Run { levels: run.levels.push(Level { id, next: 0, clear: true }), ..run },
                        cancel,
                    );
                },
                Some(f) => {
                    lemma_back_takes(job, gave_up(job, run, id, f.text()), false, cancel);
                },
            }
        },
        (Phase::Opening { id, tries }, ReportV::Failed(why)) => {
            lemma_back_takes(job, gave_up(job, run, id, why), false, cancel);
        },
        (Phase::Asking { id, tries }, ReportV::Retry) => {
            lemma_back_takes(
                job,
                gave_up(job, run, id, "still occupied after three user-directed attempts"@),
                false,
                cancel,
            );
        },
        (Phase::Asking { id, tries }, ReportV::Skip) => {
            lemma_back_takes(job, gave_up(job, run, id, "skipped occupied item"@), false, cancel);
        },
        (Phase::Asking { id, tries }, ReportV::Failed(why)) => {
            lemma_back_takes(job, gave_up(job, run, id, why), false, cancel);
        },
        (Phase::Unlinking, ReportV::Unlinked) => {
            let id = run.levels.last().id;
            let n = job.nodes[id as int];
            let taken = closed_top(
                Run {
                    processed: bumped(run.processed),
                    removed: bumped(run.removed),
                    bytes: if n.dir() {
                        run.bytes
                    } else {
                        added(run.bytes, n.allocated)
                    },
                    gone: run.gone.insert(id),
                    ..run
                },
            );
            lemma_back_takes(job, taken, true, cancel);
        },
        (Phase::Unlinking, ReportV::Failed(why)) => {
            lemma_back_takes(
                job,
                closed_top(gave_up(job, run, run.levels.last().id, why)),
                false,
                cancel,
            );
        },
        _ => {},
    }
}

/// An occupied object is asked about, and tried again where the user wants that, up to three
/// times in all; then, or if the user leaves it alone, it stays.
pub proof fn law_occupied_objects_are_tried_three_times(
    job: Job,
    run: Run,
    id: u32,
    tries: u8,
    cancel: bool,
)
    ensures
        run.phase == (Phase::Opening { id, tries }) ==> after(job, run, ReportV::Occupied, cancel)
            == (Run { phase: Phase::Asking { id, tries }, ..run }),
        run.phase == (Phase::Asking { id, tries }) && tries < 2 ==> after(
            job,
            run,
            ReportV::Retry,
            cancel,
        ) == (Run { phase: Phase::Opening { id, tries: (tries + 1) as u8 }, ..run }),
        run.phase == (Phase::Asking { id, tries }) && tries >= 2 ==> after(
            job,
            run,
            ReportV::Retry,
            cancel,
        ).gone == run.gone && (after(job, run, ReportV::Retry, cancel).phase matches Phase::Opening {
            id: other,
            tries: again,
        } ==> again == 0),
        run.phase == (Phase::Asking { id, tries }) ==> after(job, run, ReportV::Skip, cancel).gone
            == run.gone,
{
    law_only_unlinked_objects_count(job, run, ReportV::Retry, cancel);
    law_only_unlinked_objects_count(job, run, ReportV::Skip, cancel);
    if run.phase == (Phase::Asking { id, tries }) && tries >= 2 {
        let up = gave_up(job, run, id, "still occupied after three user-directed attempts"@);
        lemma_back_takes(job, up, false, cancel);
        if cancel {
            lemma_cancel_done(job, up, false);
        }
    }
}

proof fn lemma_cancel_done(job: Job, run: Run, ok: bool)
    ensures
        back(job, run, ok, true).phase is Done,
    decreases run.levels.len(),
{
    if run.levels.len() > 0 {
        lemma_cancel_done(job, closed_top(run), false);
    }
}

/// A directory that leads elsewhere is not entered, nor is a file; of any other directory,
/// everything in it is met.
pub proof fn law_links_are_not_entered(job: Job, id: int)
    ensures
        job.nodes[id].flags & 2 != 0 || job.nodes[id].flags & 1 == 0 ==> inside(job, id).len() == 0,
        job.nodes[id].flags & 2 == 0 && job.nodes[id].flags & 1 != 0 ==> inside(job, id)
            == tree::kids(job.nodes, id),
{
}

/// A failure is counted and told under the path of its object, up to a hundred of them.
pub proof fn law_failures_are_told(job: Job, run: Run, id: u32, why: Seq<char>)
    requires
        run.failed < u64::MAX,
        run.processed < u64::MAX,
    ensures
        ({
            let g = gave_up(job, run, id, why);
            &&& g.failed == run.failed + 1
            &&& g.processed == run.processed + 1
            &&& g.removed == run.removed
            &&& run.errors.len() < 100 ==> g.errors == run.errors.push(
                platform::shown(model::words_at(job.root, job.nodes, job.names, id)) + ": "@ + why,
            )
            &&& run.errors.len() >= 100 ==> g.errors == run.errors
        }),
{
}

/// What differs from the review is told: the kind first, of a file then the length, then a
/// known time.
pub proof fn law_changes_are_told_by_kind(r: ReviewedNode, actual: Identity)
    ensures
        ({
            let kind = actual.dir() == r.is_dir && actual.reparse() == r.is_reparse;
            let long = actual.length == r.length;
            let f = review_fault(r, actual);
            &&& f == Some(ReviewFault::TypeChanged) <==> !kind
            &&& f == Some(ReviewFault::SizeChanged) <==> kind && !r.is_dir && !long
            &&& f == Some(ReviewFault::TimeChanged) ==> kind && !r.is_dir && long && r.modified
                != i64::MIN
        }),
{
}

} // verus!
